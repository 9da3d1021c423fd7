//! The binary encoding of a trace: its events one after the other, each a
//! self-delimiting map from field names to values, with no framing around
//! them.
//!
//! Only what the writers write is read, but for the width of a head: maps,
//! arrays and strings of definite length, in every event the tag first and
//! the fields in the order of the layout. An event whose entries stand in
//! another order, or that holds an entry which its layout does not name, is
//! refused.
//!
//! An item starts with a head: one byte that holds the item's major type in
//! its upper three bits and, in the lower five, either a small argument or the
//! width of the big-endian argument that follows.

use super::event::{EventKind, EventModel, TraceEvent};
use super::octets::{
    append, copy_range, holds_at, lemma_holds_index, lemma_holds_split, range_is, text_of_range, utf8,
};
use super::schema::{
    all_fit, event_of, field_count, fields_of, fits, kind_from_tag, kind_of_tag, kind_tag, layout, lemma_fields_round_trip, lemma_names_short,
    lemma_tag_names_kind, tag_key, tag_of,
    Field, FieldType, FieldValue,
};
use vstd::prelude::*;
use vstd::utf8::{decode_utf8, valid_utf8};

verus! {

/// Why a binary item could not be read.
#[derive(Debug, Clone, Copy, PartialEq, Eq, Structural)]
pub enum CborError {
    /// The bytes end before the item does.
    Truncated,
    /// The bytes are not those of the expected item.
    Malformed,
}

/// The major type of unsigned integers.
pub const MAJOR_UINT: u8 = 0;

/// The major type of negative integers.
pub const MAJOR_NEGATIVE: u8 = 1;

/// The major type of byte strings.
pub const MAJOR_BYTES: u8 = 2;

/// The major type of text strings.
pub const MAJOR_TEXT: u8 = 3;

/// The major type of arrays.
pub const MAJOR_ARRAY: u8 = 4;

/// The major type of maps.
pub const MAJOR_MAP: u8 = 5;

/// The byte that stands for an absent value.
pub const NULL_BYTE: u8 = 0xf6;

/// The big-endian value of the two bytes at `p`.
pub open spec fn be2(s: Seq<u8>, p: int) -> int {
    s[p] as int * 256 + s[p + 1] as int
}

/// The big-endian value of the four bytes at `p`.
pub open spec fn be4(s: Seq<u8>, p: int) -> int {
    be2(s, p) * 65536 + be2(s, p + 2)
}

/// The big-endian value of the eight bytes at `p`.
pub open spec fn be8(s: Seq<u8>, p: int) -> int {
    be4(s, p) * 4294967296 + be4(s, p + 4)
}

/// The head at `pos`: its major type, its argument and the place behind it.
pub open spec fn head_at(s: Seq<u8>, pos: int) -> Result<(u8, u64, int), CborError> {
    if pos < 0 || pos >= s.len() {
        Err(CborError::Truncated)
    } else {
        let major = (s[pos] as int / 32) as u8;
        let info = s[pos] as int % 32;
        if info < 24 {
            Ok((major, info as u64, pos + 1))
        } else if info == 24 {
            if pos + 2 > s.len() {
                Err(CborError::Truncated)
            } else {
                Ok((major, s[pos + 1] as u64, pos + 2))
            }
        } else if info == 25 {
            if pos + 3 > s.len() {
                Err(CborError::Truncated)
            } else {
                Ok((major, be2(s, pos + 1) as u64, pos + 3))
            }
        } else if info == 26 {
            if pos + 5 > s.len() {
                Err(CborError::Truncated)
            } else {
                Ok((major, be4(s, pos + 1) as u64, pos + 5))
            }
        } else if info == 27 {
            if pos + 9 > s.len() {
                Err(CborError::Truncated)
            } else {
                Ok((major, be8(s, pos + 1) as u64, pos + 9))
            }
        } else {
            Err(CborError::Malformed)
        }
    }
}

/// The unsigned integer at `pos`, which must not exceed `max`.
pub open spec fn uint_at(s: Seq<u8>, pos: int, max: u64) -> Result<(u64, int), CborError> {
    match head_at(s, pos) {
        Err(e) => Err(e),
        Ok((major, arg, next)) => if major == MAJOR_UINT && arg <= max {
            Ok((arg, next))
        } else {
            Err(CborError::Malformed)
        },
    }
}

/// The signed 32-bit integer at `pos`.
pub open spec fn i32_at(s: Seq<u8>, pos: int) -> Result<(i32, int), CborError> {
    match head_at(s, pos) {
        Err(e) => Err(e),
        Ok((major, arg, next)) => if major == MAJOR_UINT && arg <= i32::MAX {
            Ok((arg as i32, next))
        } else if major == MAJOR_NEGATIVE && arg <= i32::MAX {
            Ok(((-1 - arg) as i32, next))
        } else {
            Err(CborError::Malformed)
        },
    }
}

/// The payload of the string of the given major type at `pos`: where it
/// starts and where it ends.
pub open spec fn blob_at(s: Seq<u8>, pos: int, major: u8) -> Result<(int, int), CborError> {
    match head_at(s, pos) {
        Err(e) => Err(e),
        Ok((m, arg, next)) => if m != major {
            Err(CborError::Malformed)
        } else if next + arg > s.len() {
            Err(CborError::Truncated)
        } else {
            Ok((next, next + arg))
        },
    }
}

/// The byte string at `pos`.
pub open spec fn bytes_at(s: Seq<u8>, pos: int) -> Result<(Seq<u8>, int), CborError> {
    match blob_at(s, pos, MAJOR_BYTES) {
        Err(e) => Err(e),
        Ok((start, end)) => Ok((s.subrange(start, end), end)),
    }
}

/// The text string at `pos`; its payload must be valid UTF-8.
pub open spec fn text_at(s: Seq<u8>, pos: int) -> Result<(Seq<char>, int), CborError> {
    match blob_at(s, pos, MAJOR_TEXT) {
        Err(e) => Err(e),
        Ok((start, end)) => if valid_utf8(s.subrange(start, end)) {
            Ok((decode_utf8(s.subrange(start, end)), end))
        } else {
            Err(CborError::Malformed)
        },
    }
}

/// The place behind the text string at `pos`, which must be the given name.
pub open spec fn key_at(s: Seq<u8>, pos: int, name: Seq<char>) -> Result<int, CborError> {
    match blob_at(s, pos, MAJOR_TEXT) {
        Err(e) => Err(e),
        Ok((start, end)) => if s.subrange(start, end) == utf8(name) {
            Ok(end)
        } else {
            Err(CborError::Malformed)
        },
    }
}

/// The text string at `pos`, or nothing where the null byte stands there.
pub open spec fn opt_text_at(s: Seq<u8>, pos: int) -> Result<(Option<Seq<char>>, int), CborError> {
    if 0 <= pos < s.len() && s[pos] == NULL_BYTE {
        Ok((None, pos + 1))
    } else {
        match text_at(s, pos) {
            Err(e) => Err(e),
            Ok((t, next)) => Ok((Some(t), next)),
        }
    }
}

/// The head of the array at `pos`: how many items it has.
pub open spec fn array_at(s: Seq<u8>, pos: int) -> Result<(u64, int), CborError> {
    match head_at(s, pos) {
        Err(e) => Err(e),
        Ok((major, arg, next)) => if major == MAJOR_ARRAY {
            Ok((arg, next))
        } else {
            Err(CborError::Malformed)
        },
    }
}

/// The place behind the head of the array at `pos`, which must have `count` items.
pub open spec fn array_of_at(s: Seq<u8>, pos: int, count: u64) -> Result<int, CborError> {
    match array_at(s, pos) {
        Err(e) => Err(e),
        Ok((n, next)) => if n == count {
            Ok(next)
        } else {
            Err(CborError::Malformed)
        },
    }
}

/// `count` text strings from `pos` on, appended to `acc`.
pub open spec fn texts_at(s: Seq<u8>, pos: int, count: nat, acc: Seq<Seq<char>>) -> Result<
    (Seq<Seq<char>>, int),
    CborError,
>
    decreases count,
{
    if count == 0 {
        Ok((acc, pos))
    } else {
        match text_at(s, pos) {
            Err(e) => Err(e),
            Ok((t, next)) => texts_at(s, next, (count - 1) as nat, acc.push(t)),
        }
    }
}

/// The array of text strings at `pos`.
pub open spec fn text_list_at(s: Seq<u8>, pos: int) -> Result<(Seq<Seq<char>>, int), CborError> {
    match array_at(s, pos) {
        Err(e) => Err(e),
        Ok((count, next)) => texts_at(s, next, count as nat, Seq::empty()),
    }
}

/// The pair at `pos`: an array of two text strings.
pub open spec fn pair_at(s: Seq<u8>, pos: int) -> Result<((Seq<char>, Seq<char>), int), CborError> {
    match array_of_at(s, pos, 2) {
        Err(e) => Err(e),
        Ok(at0) => match text_at(s, at0) {
            Err(e) => Err(e),
            Ok((a, at1)) => match text_at(s, at1) {
                Err(e) => Err(e),
                Ok((b, at2)) => Ok(((a, b), at2)),
            },
        },
    }
}

/// `count` pairs from `pos` on, appended to `acc`.
pub open spec fn pairs_at(
    s: Seq<u8>,
    pos: int,
    count: nat,
    acc: Seq<(Seq<char>, Seq<char>)>,
) -> Result<(Seq<(Seq<char>, Seq<char>)>, int), CborError>
    decreases count,
{
    if count == 0 {
        Ok((acc, pos))
    } else {
        match pair_at(s, pos) {
            Err(e) => Err(e),
            Ok((p, next)) => pairs_at(s, next, (count - 1) as nat, acc.push(p)),
        }
    }
}

/// The array of pairs at `pos`.
pub open spec fn pair_list_at(s: Seq<u8>, pos: int) -> Result<
    (Seq<(Seq<char>, Seq<char>)>, int),
    CborError,
> {
    match array_at(s, pos) {
        Err(e) => Err(e),
        Ok((count, next)) => pairs_at(s, next, count as nat, Seq::empty()),
    }
}

/// The two unsigned integers at `pos`: an array of two.
pub open spec fn u64_pair_at(s: Seq<u8>, pos: int) -> Result<((u64, u64), int), CborError> {
    match array_of_at(s, pos, 2) {
        Err(e) => Err(e),
        Ok(at0) => match uint_at(s, at0, u64::MAX) {
            Err(e) => Err(e),
            Ok((a, at1)) => match uint_at(s, at1, u64::MAX) {
                Err(e) => Err(e),
                Ok((b, at2)) => Ok(((a, b), at2)),
            },
        },
    }
}

/// The value of the given type at `pos`.
pub open spec fn value_at(s: Seq<u8>, pos: int, ty: FieldType) -> Result<
    (FieldValue, int),
    CborError,
> {
    match ty {
        FieldType::U64 => match uint_at(s, pos, u64::MAX) {
            Err(e) => Err(e),
            Ok((n, next)) => Ok((FieldValue::Int(n as int), next)),
        },
        FieldType::U32 => match uint_at(s, pos, u32::MAX as u64) {
            Err(e) => Err(e),
            Ok((n, next)) => Ok((FieldValue::Int(n as int), next)),
        },
        FieldType::U16 => match uint_at(s, pos, u16::MAX as u64) {
            Err(e) => Err(e),
            Ok((n, next)) => Ok((FieldValue::Int(n as int), next)),
        },
        FieldType::I32 => match i32_at(s, pos) {
            Err(e) => Err(e),
            Ok((n, next)) => Ok((FieldValue::Int(n as int), next)),
        },
        FieldType::Text => match text_at(s, pos) {
            Err(e) => Err(e),
            Ok((t, next)) => Ok((FieldValue::Text(t), next)),
        },
        FieldType::OptText => match opt_text_at(s, pos) {
            Err(e) => Err(e),
            Ok((t, next)) => Ok((FieldValue::OptText(t), next)),
        },
        FieldType::Bytes => match bytes_at(s, pos) {
            Err(e) => Err(e),
            Ok((b, next)) => Ok((FieldValue::Bytes(b), next)),
        },
        FieldType::TextList => match text_list_at(s, pos) {
            Err(e) => Err(e),
            Ok((l, next)) => Ok((FieldValue::TextList(l), next)),
        },
        FieldType::PairList => match pair_list_at(s, pos) {
            Err(e) => Err(e),
            Ok((l, next)) => Ok((FieldValue::PairList(l), next)),
        },
        FieldType::U64Pair => match u64_pair_at(s, pos) {
            Err(e) => Err(e),
            Ok((p, next)) => Ok((FieldValue::U64Pair(p.0, p.1), next)),
        },
    }
}

/// The field at `pos`: its name, then its value.
#[verifier::opaque]
pub open spec fn field_at(s: Seq<u8>, pos: int, field: Field) -> Result<
    (FieldValue, int),
    CborError,
> {
    match key_at(s, pos, field.name) {
        Err(e) => Err(e),
        Ok(next) => value_at(s, next, field.ty),
    }
}

/// The fields from the `i`-th on, read from `pos` on and appended to `acc`.
#[verifier::opaque]
pub open spec fn fields_at(s: Seq<u8>, pos: int, fields: Seq<Field>, i: int, acc: Seq<FieldValue>)
    -> Result<(Seq<FieldValue>, int), CborError>
    decreases fields.len() - i,
{
    if i < 0 || i >= fields.len() {
        Ok((acc, pos))
    } else {
        match field_at(s, pos, fields[i]) {
            Err(e) => Err(e),
            Ok((v, next)) => fields_at(s, next, fields, i + 1, acc.push(v)),
        }
    }
}

/// The head of the event at `pos`: how many entries its map has, what kind of
/// event its tag names, and where its fields start.
#[verifier::opaque]
pub open spec fn event_head_at(s: Seq<u8>, pos: int) -> Result<(EventKind, int), CborError> {
    match head_at(s, pos) {
        Err(e) => Err(e),
        Ok((major, entries, at0)) => if major != MAJOR_MAP {
            Err(CborError::Malformed)
        } else {
            match key_at(s, at0, tag_key()) {
                Err(e) => Err(e),
                Ok(at1) => match blob_at(s, at1, MAJOR_TEXT) {
                    Err(e) => Err(e),
                    Ok((start, end)) => match kind_of_tag(s.subrange(start, end)) {
                        None => Err(CborError::Malformed),
                        Some(kind) => if entries == layout(kind).len() + 1 {
                            Ok((kind, end))
                        } else {
                            Err(CborError::Malformed)
                        },
                    },
                },
            }
        },
    }
}

/// The event of the given kind whose fields start at `pos`, and the place
/// behind it.
#[verifier::opaque]
pub open spec fn body_at(s: Seq<u8>, pos: int, kind: EventKind) -> Result<
    (EventModel, int),
    CborError,
> {
    match fields_at(s, pos, layout(kind), 0, Seq::empty()) {
        Err(e) => Err(e),
        Ok((values, next)) => Ok((event_of(kind, values), next)),
    }
}

/// The event at `pos` and the place behind it.
#[verifier::opaque]
pub open spec fn event_at(s: Seq<u8>, pos: int) -> Result<(EventModel, int), CborError> {
    match event_head_at(s, pos) {
        Err(e) => Err(e),
        Ok((kind, p)) => body_at(s, p, kind),
    }
}

/// Reading the fields from the `i`-th on is reading the `i`-th and then the
/// rest.
pub proof fn lemma_fields_step(
    s: Seq<u8>,
    pos: int,
    fields: Seq<Field>,
    i: int,
    acc: Seq<FieldValue>,
)
    ensures
        fields_at(s, pos, fields, i, acc) == if i < 0 || i >= fields.len() {
            Ok::<_, CborError>((acc, pos))
        } else {
            match field_at(s, pos, fields[i]) {
                Err(e) => Err(e),
                Ok((v, next)) => fields_at(s, next, fields, i + 1, acc.push(v)),
            }
        },
{
    reveal(fields_at);
}

/// The events that the bytes hold from `pos` on, and whether what follows
/// them is corrupt. Bytes that end where an event ends, or in the middle of
/// one, end the sequence; bytes that are no event make it corrupt.
pub open spec fn events_from(s: Seq<u8>, pos: int) -> (Seq<EventModel>, bool)
    decreases s.len() - pos,
{
    match event_at(s, pos) {
        Ok((e, next)) => if pos < next <= s.len() {
            let rest = events_from(s, next);
            (seq![e] + rest.0, rest.1)
        } else {
            (Seq::empty(), true)
        },
        Err(CborError::Truncated) => (Seq::empty(), false),
        Err(CborError::Malformed) => (Seq::empty(), true),
    }
}

/// Reads the head at `pos`.
pub fn read_head(buf: &[u8], pos: usize) -> (r: Result<(u8, u64, usize), CborError>)
    requires
        pos <= buf.len(),
    ensures
        match r {
            Ok((major, arg, next)) => head_at(buf@, pos as int) == Ok::<_, CborError>(
                (major, arg, next as int),
            ) && pos < next <= buf.len(),
            Err(e) => head_at(buf@, pos as int) == Err::<(u8, u64, int), _>(e),
        },
{
    if pos >= buf.len() {
        return Err(CborError::Truncated);
    }
    let left: usize = buf.len() - pos;
    let major: u8 = buf[pos] / 32;
    let info: u8 = buf[pos] % 32;
    if info < 24 {
        Ok((major, info as u64, pos + 1))
    } else if info == 24 {
        if left < 2 {
            Err(CborError::Truncated)
        } else {
            Ok((major, buf[pos + 1] as u64, pos + 2))
        }
    } else if info == 25 {
        if left < 3 {
            Err(CborError::Truncated)
        } else {
            Ok((major, read_be2(buf, pos + 1), pos + 3))
        }
    } else if info == 26 {
        if left < 5 {
            Err(CborError::Truncated)
        } else {
            Ok((major, read_be4(buf, pos + 1), pos + 5))
        }
    } else if info == 27 {
        if left < 9 {
            Err(CborError::Truncated)
        } else {
            let high: u64 = read_be4(buf, pos + 1);
            let low: u64 = read_be4(buf, pos + 5);
            Ok((major, high * 4294967296 + low, pos + 9))
        }
    } else {
        Err(CborError::Malformed)
    }
}

fn read_be2(buf: &[u8], p: usize) -> (r: u64)
    requires
        p + 2 <= buf.len(),
    ensures
        r == be2(buf@, p as int),
        r < 65536,
{
    buf[p] as u64 * 256 + buf[p + 1] as u64
}

fn read_be4(buf: &[u8], p: usize) -> (r: u64)
    requires
        p + 4 <= buf.len(),
    ensures
        r == be4(buf@, p as int),
        r < 4294967296,
{
    read_be2(buf, p) * 65536 + read_be2(buf, p + 2)
}

/// Reads the unsigned integer at `pos`, which must not exceed `max`.
pub fn read_uint(buf: &[u8], pos: usize, max: u64) -> (r: Result<(u64, usize), CborError>)
    requires
        pos <= buf.len(),
    ensures
        match r {
            Ok((n, next)) => uint_at(buf@, pos as int, max) == Ok::<_, CborError>(
                (n, next as int),
            ) && pos < next <= buf.len() && n <= max,
            Err(e) => uint_at(buf@, pos as int, max) == Err::<(u64, int), _>(e),
        },
{
    let (major, arg, next) = read_head(buf, pos)?;
    if major == MAJOR_UINT && arg <= max {
        Ok((arg, next))
    } else {
        Err(CborError::Malformed)
    }
}

/// Reads the signed 32-bit integer at `pos`.
pub fn read_i32(buf: &[u8], pos: usize) -> (r: Result<(i32, usize), CborError>)
    requires
        pos <= buf.len(),
    ensures
        match r {
            Ok((n, next)) => i32_at(buf@, pos as int) == Ok::<_, CborError>((n, next as int))
                && pos < next <= buf.len(),
            Err(e) => i32_at(buf@, pos as int) == Err::<(i32, int), _>(e),
        },
{
    let (major, arg, next) = read_head(buf, pos)?;
    if major == MAJOR_UINT && arg <= i32::MAX as u64 {
        Ok((arg as i32, next))
    } else if major == MAJOR_NEGATIVE && arg <= i32::MAX as u64 {
        Ok((-1 - (arg as i32), next))
    } else {
        Err(CborError::Malformed)
    }
}

/// Finds the payload of the string of the given major type at `pos`.
pub fn read_blob(buf: &[u8], pos: usize, major: u8) -> (r: Result<(usize, usize), CborError>)
    requires
        pos <= buf.len(),
    ensures
        match r {
            Ok((start, end)) => blob_at(buf@, pos as int, major) == Ok::<_, CborError>(
                (start as int, end as int),
            ) && pos < start <= end <= buf.len(),
            Err(e) => blob_at(buf@, pos as int, major) == Err::<(int, int), _>(e),
        },
{
    let (m, arg, next) = read_head(buf, pos)?;
    if m != major {
        Err(CborError::Malformed)
    } else if arg > (buf.len() - next) as u64 {
        Err(CborError::Truncated)
    } else {
        Ok((next, next + arg as usize))
    }
}

/// Reads the byte string at `pos`.
pub fn read_bytes(buf: &[u8], pos: usize) -> (r: Result<(Vec<u8>, usize), CborError>)
    requires
        pos <= buf.len(),
    ensures
        match r {
            Ok((b, next)) => bytes_at(buf@, pos as int) == Ok::<_, CborError>((b@, next as int))
                && pos < next <= buf.len(),
            Err(e) => bytes_at(buf@, pos as int) == Err::<(Seq<u8>, int), _>(e),
        },
{
    let (start, end) = read_blob(buf, pos, MAJOR_BYTES)?;
    Ok((copy_range(buf, start, end), end))
}

/// Reads the text string at `pos`.
pub fn read_text(buf: &[u8], pos: usize) -> (r: Result<(String, usize), CborError>)
    requires
        pos <= buf.len(),
    ensures
        match r {
            Ok((t, next)) => text_at(buf@, pos as int) == Ok::<_, CborError>((t@, next as int))
                && pos < next <= buf.len(),
            Err(e) => text_at(buf@, pos as int) == Err::<(Seq<char>, int), _>(e),
        },
{
    let (start, end) = read_blob(buf, pos, MAJOR_TEXT)?;
    match text_of_range(buf, start, end) {
        Some(t) => Ok((t, end)),
        None => Err(CborError::Malformed),
    }
}

/// Reads the text string at `pos`, which must be the given name.
pub fn read_key(buf: &[u8], pos: usize, name: &str) -> (r: Result<usize, CborError>)
    requires
        pos <= buf.len(),
    ensures
        match r {
            Ok(next) => key_at(buf@, pos as int, name@) == Ok::<_, CborError>(next as int) && pos
                < next <= buf.len(),
            Err(e) => key_at(buf@, pos as int, name@) == Err::<int, _>(e),
        },
{
    let (start, end) = read_blob(buf, pos, MAJOR_TEXT)?;
    if range_is(buf, start, end, name) {
        Ok(end)
    } else {
        Err(CborError::Malformed)
    }
}

/// Reads the text string at `pos`, or nothing where the null byte stands there.
pub fn read_opt_text(buf: &[u8], pos: usize) -> (r: Result<(Option<String>, usize), CborError>)
    requires
        pos <= buf.len(),
    ensures
        match r {
            Ok((t, next)) => opt_text_at(buf@, pos as int) == Ok::<_, CborError>(
                (t.deep_view(), next as int),
            ) && pos < next <= buf.len(),
            Err(e) => opt_text_at(buf@, pos as int) == Err::<(Option<Seq<char>>, int), _>(e),
        },
{
    if pos < buf.len() && buf[pos] == NULL_BYTE {
        Ok((None, pos + 1))
    } else {
        let (t, next) = read_text(buf, pos)?;
        Ok((Some(t), next))
    }
}

/// Reads the head of the array at `pos`.
pub fn read_array(buf: &[u8], pos: usize) -> (r: Result<(u64, usize), CborError>)
    requires
        pos <= buf.len(),
    ensures
        match r {
            Ok((n, next)) => array_at(buf@, pos as int) == Ok::<_, CborError>((n, next as int))
                && pos < next <= buf.len(),
            Err(e) => array_at(buf@, pos as int) == Err::<(u64, int), _>(e),
        },
{
    let (major, arg, next) = read_head(buf, pos)?;
    if major == MAJOR_ARRAY {
        Ok((arg, next))
    } else {
        Err(CborError::Malformed)
    }
}

/// Reads the head of the array at `pos`, which must have `count` items.
pub fn read_array_of(buf: &[u8], pos: usize, count: u64) -> (r: Result<usize, CborError>)
    requires
        pos <= buf.len(),
    ensures
        match r {
            Ok(next) => array_of_at(buf@, pos as int, count) == Ok::<_, CborError>(next as int)
                && pos < next <= buf.len(),
            Err(e) => array_of_at(buf@, pos as int, count) == Err::<int, _>(e),
        },
{
    let (n, next) = read_array(buf, pos)?;
    if n == count {
        Ok(next)
    } else {
        Err(CborError::Malformed)
    }
}

/// Reads the array of text strings at `pos`.
pub fn read_text_list(buf: &[u8], pos: usize) -> (r: Result<(Vec<String>, usize), CborError>)
    requires
        pos <= buf.len(),
    ensures
        match r {
            Ok((l, next)) => text_list_at(buf@, pos as int) == Ok::<_, CborError>(
                (l.deep_view(), next as int),
            ) && pos < next <= buf.len(),
            Err(e) => text_list_at(buf@, pos as int) == Err::<(Seq<Seq<char>>, int), _>(e),
        },
{
    let (count, start) = read_array(buf, pos)?;
    let mut out: Vec<String> = Vec::new();
    let mut p: usize = start;
    let mut i: u64 = 0;
    assert(out.deep_view() =~= Seq::<Seq<char>>::empty());
    while i < count
        invariant
            i <= count,
            pos < start <= p <= buf.len(),
            array_at(buf@, pos as int) == Ok::<_, CborError>((count, start as int)),
            texts_at(buf@, start as int, count as nat, Seq::empty()) == texts_at(
                buf@,
                p as int,
                (count - i) as nat,
                out.deep_view(),
            ),
        decreases count - i,
    {
        match read_text(buf, p) {
            Err(e) => {
                return Err(e);
            },
            Ok((t, next)) => {
                let ghost before = out.deep_view();
                let ghost text = t@;
                out.push(t);
                assert(out.deep_view() =~= before.push(text));
                p = next;
                i += 1;
            },
        }
    }
    Ok((out, p))
}

/// Reads the pair at `pos`.
pub fn read_pair(buf: &[u8], pos: usize) -> (r: Result<((String, String), usize), CborError>)
    requires
        pos <= buf.len(),
    ensures
        match r {
            Ok((p, next)) => pair_at(buf@, pos as int) == Ok::<_, CborError>(
                ((p.0@, p.1@), next as int),
            ) && pos < next <= buf.len(),
            Err(e) => pair_at(buf@, pos as int) == Err::<((Seq<char>, Seq<char>), int), _>(e),
        },
{
    let at0 = read_array_of(buf, pos, 2)?;
    let (a, at1) = read_text(buf, at0)?;
    let (b, at2) = read_text(buf, at1)?;
    Ok(((a, b), at2))
}

/// Reads the array of pairs at `pos`.
pub fn read_pair_list(buf: &[u8], pos: usize) -> (r: Result<
    (Vec<(String, String)>, usize),
    CborError,
>)
    requires
        pos <= buf.len(),
    ensures
        match r {
            Ok((l, next)) => pair_list_at(buf@, pos as int) == Ok::<_, CborError>(
                (l.deep_view(), next as int),
            ) && pos < next <= buf.len(),
            Err(e) => pair_list_at(buf@, pos as int) == Err::<
                (Seq<(Seq<char>, Seq<char>)>, int),
                _,
            >(e),
        },
{
    let (count, start) = read_array(buf, pos)?;
    let mut out: Vec<(String, String)> = Vec::new();
    let mut p: usize = start;
    let mut i: u64 = 0;
    assert(out.deep_view() =~= Seq::<(Seq<char>, Seq<char>)>::empty());
    while i < count
        invariant
            i <= count,
            pos < start <= p <= buf.len(),
            array_at(buf@, pos as int) == Ok::<_, CborError>((count, start as int)),
            pairs_at(buf@, start as int, count as nat, Seq::empty()) == pairs_at(
                buf@,
                p as int,
                (count - i) as nat,
                out.deep_view(),
            ),
        decreases count - i,
    {
        match read_pair(buf, p) {
            Err(e) => {
                return Err(e);
            },
            Ok((pair, next)) => {
                let ghost before = out.deep_view();
                let ghost added = (pair.0@, pair.1@);
                out.push(pair);
                assert(out.deep_view() =~= before.push(added));
                p = next;
                i += 1;
            },
        }
    }
    Ok((out, p))
}

/// Reads the two unsigned integers at `pos`.
pub fn read_u64_pair(buf: &[u8], pos: usize) -> (r: Result<((u64, u64), usize), CborError>)
    requires
        pos <= buf.len(),
    ensures
        match r {
            Ok((p, next)) => u64_pair_at(buf@, pos as int) == Ok::<_, CborError>(
                (p, next as int),
            ) && pos < next <= buf.len(),
            Err(e) => u64_pair_at(buf@, pos as int) == Err::<((u64, u64), int), _>(e),
        },
{
    let at0 = read_array_of(buf, pos, 2)?;
    let (a, at1) = read_uint(buf, at0, u64::MAX)?;
    let (b, at2) = read_uint(buf, at1, u64::MAX)?;
    Ok(((a, b), at2))
}


/// Reads the head of the event at `pos`.
pub fn read_event_head(buf: &[u8], pos: usize) -> (r: Result<(EventKind, usize), CborError>)
    requires
        pos <= buf.len(),
    ensures
        match r {
            Ok((kind, next)) => event_head_at(buf@, pos as int) == Ok::<_, CborError>(
                (kind, next as int),
            ) && pos < next <= buf.len(),
            Err(e) => event_head_at(buf@, pos as int) == Err::<(EventKind, int), _>(e),
        },
{
    reveal(event_head_at);
    let (major, entries, at0) = read_head(buf, pos)?;
    if major != MAJOR_MAP {
        return Err(CborError::Malformed);
    }
    let at1 = read_key(buf, at0, "call")?;
    let (start, end) = read_blob(buf, at1, MAJOR_TEXT)?;
    match kind_from_tag(buf, start, end) {
        None => Err(CborError::Malformed),
        Some(kind) => if entries == field_count(kind) + 1 {
            Ok((kind, end))
        } else {
            Err(CborError::Malformed)
        },
    }
}

/// Reads the event at `pos`.
pub fn read_event(buf: &[u8], pos: usize) -> (r: Result<(TraceEvent, usize), CborError>)
    requires
        pos <= buf.len(),
    ensures
        match r {
            Ok((e, next)) => event_at(buf@, pos as int) == Ok::<_, CborError>((e@, next as int))
                && pos < next <= buf.len(),
            Err(e) => event_at(buf@, pos as int) == Err::<(EventModel, int), _>(e),
        },
{
    reveal(event_at);
    let (kind, p) = read_event_head(buf, pos)?;
    read_body(buf, p, kind)
}

/// Reads the fields of an event of the given kind, which start at `pos`.
pub fn read_body(buf: &[u8], pos: usize, kind: EventKind) -> (r: Result<
    (TraceEvent, usize),
    CborError,
>)
    requires
        pos <= buf.len(),
    ensures
        match r {
            Ok((e, next)) => body_at(buf@, pos as int, kind) == Ok::<_, CborError>(
                (e@, next as int),
            ) && pos <= next <= buf.len(),
            Err(e) => body_at(buf@, pos as int, kind) == Err::<(EventModel, int), _>(e),
        },
{
    reveal(body_at);
    match kind {
        EventKind::ClockNow | EventKind::ClockResolution => read_clock_body(buf, pos, kind),
        EventKind::MonotonicClockNow
        | EventKind::MonotonicClockResolution
        | EventKind::RandomU64
        | EventKind::InsecureRandomU64 => read_u64_body(buf, pos, kind),
        EventKind::RandomBytes | EventKind::InsecureRandomBytes => read_bytes_body(
            buf,
            pos,
            kind,
        ),
        EventKind::HttpResponse => read_http_body(buf, pos),
        EventKind::Read => {
            proof {
                lemma_fields_step(buf@, pos as int, layout(kind), 0, Seq::empty());
            }
            Ok((TraceEvent::Read, pos))
        },
        EventKind::Environment | EventKind::Arguments => read_list_body(buf, pos, kind),
        _ => read_other_body(buf, pos, kind),
    }
}

/// Reads the field of the given name at `pos`.
fn read_field_u64(buf: &[u8], pos: usize, name: &str) -> (r: Result<(u64, usize), CborError>)
    requires
        pos <= buf.len(),
    ensures
        match r {
            Ok((x, next)) => field_at(buf@, pos as int, Field { name: name@, ty: FieldType::U64 })
                == Ok::<_, CborError>((FieldValue::Int(x as int), next as int)) && pos < next <= buf.len(),
            Err(e) => field_at(buf@, pos as int, Field { name: name@, ty: FieldType::U64 })
                == Err::<(FieldValue, int), _>(e),
        },
{
    reveal(field_at);
    let p = read_key(buf, pos, name)?;
    read_uint(buf, p, u64::MAX)
}

/// Reads the field of the given name at `pos`.
fn read_field_u32(buf: &[u8], pos: usize, name: &str) -> (r: Result<(u32, usize), CborError>)
    requires
        pos <= buf.len(),
    ensures
        match r {
            Ok((x, next)) => field_at(buf@, pos as int, Field { name: name@, ty: FieldType::U32 })
                == Ok::<_, CborError>((FieldValue::Int(x as int), next as int)) && pos < next <= buf.len(),
            Err(e) => field_at(buf@, pos as int, Field { name: name@, ty: FieldType::U32 })
                == Err::<(FieldValue, int), _>(e),
        },
{
    reveal(field_at);
    let p = read_key(buf, pos, name)?;
    let (n, next) = read_uint(buf, p, u32::MAX as u64)?;
    Ok((n as u32, next))
}

/// Reads the field of the given name at `pos`.
fn read_field_u16(buf: &[u8], pos: usize, name: &str) -> (r: Result<(u16, usize), CborError>)
    requires
        pos <= buf.len(),
    ensures
        match r {
            Ok((x, next)) => field_at(buf@, pos as int, Field { name: name@, ty: FieldType::U16 })
                == Ok::<_, CborError>((FieldValue::Int(x as int), next as int)) && pos < next <= buf.len(),
            Err(e) => field_at(buf@, pos as int, Field { name: name@, ty: FieldType::U16 })
                == Err::<(FieldValue, int), _>(e),
        },
{
    reveal(field_at);
    let p = read_key(buf, pos, name)?;
    let (n, next) = read_uint(buf, p, u16::MAX as u64)?;
    Ok((n as u16, next))
}

/// Reads the field of the given name at `pos`.
fn read_field_i32(buf: &[u8], pos: usize, name: &str) -> (r: Result<(i32, usize), CborError>)
    requires
        pos <= buf.len(),
    ensures
        match r {
            Ok((x, next)) => field_at(buf@, pos as int, Field { name: name@, ty: FieldType::I32 })
                == Ok::<_, CborError>((FieldValue::Int(x as int), next as int)) && pos < next <= buf.len(),
            Err(e) => field_at(buf@, pos as int, Field { name: name@, ty: FieldType::I32 })
                == Err::<(FieldValue, int), _>(e),
        },
{
    reveal(field_at);
    let p = read_key(buf, pos, name)?;
    read_i32(buf, p)
}

/// Reads the field of the given name at `pos`.
fn read_field_text(buf: &[u8], pos: usize, name: &str) -> (r: Result<(String, usize), CborError>)
    requires
        pos <= buf.len(),
    ensures
        match r {
            Ok((x, next)) => field_at(buf@, pos as int, Field { name: name@, ty: FieldType::Text })
                == Ok::<_, CborError>((FieldValue::Text(x@), next as int)) && pos < next <= buf.len(),
            Err(e) => field_at(buf@, pos as int, Field { name: name@, ty: FieldType::Text })
                == Err::<(FieldValue, int), _>(e),
        },
{
    reveal(field_at);
    let p = read_key(buf, pos, name)?;
    read_text(buf, p)
}

/// Reads the field of the given name at `pos`.
fn read_field_opt_text(buf: &[u8], pos: usize, name: &str) -> (r: Result<(Option<String>, usize), CborError>)
    requires
        pos <= buf.len(),
    ensures
        match r {
            Ok((x, next)) => field_at(buf@, pos as int, Field { name: name@, ty: FieldType::OptText })
                == Ok::<_, CborError>((FieldValue::OptText(x.deep_view()), next as int)) && pos < next <= buf.len(),
            Err(e) => field_at(buf@, pos as int, Field { name: name@, ty: FieldType::OptText })
                == Err::<(FieldValue, int), _>(e),
        },
{
    reveal(field_at);
    let p = read_key(buf, pos, name)?;
    read_opt_text(buf, p)
}

/// Reads the field of the given name at `pos`.
fn read_field_bytes(buf: &[u8], pos: usize, name: &str) -> (r: Result<(Vec<u8>, usize), CborError>)
    requires
        pos <= buf.len(),
    ensures
        match r {
            Ok((x, next)) => field_at(buf@, pos as int, Field { name: name@, ty: FieldType::Bytes })
                == Ok::<_, CborError>((FieldValue::Bytes(x@), next as int)) && pos < next <= buf.len(),
            Err(e) => field_at(buf@, pos as int, Field { name: name@, ty: FieldType::Bytes })
                == Err::<(FieldValue, int), _>(e),
        },
{
    reveal(field_at);
    let p = read_key(buf, pos, name)?;
    read_bytes(buf, p)
}

/// Reads the field of the given name at `pos`.
fn read_field_text_list(buf: &[u8], pos: usize, name: &str) -> (r: Result<(Vec<String>, usize), CborError>)
    requires
        pos <= buf.len(),
    ensures
        match r {
            Ok((x, next)) => field_at(buf@, pos as int, Field { name: name@, ty: FieldType::TextList })
                == Ok::<_, CborError>((FieldValue::TextList(x.deep_view()), next as int)) && pos < next <= buf.len(),
            Err(e) => field_at(buf@, pos as int, Field { name: name@, ty: FieldType::TextList })
                == Err::<(FieldValue, int), _>(e),
        },
{
    reveal(field_at);
    let p = read_key(buf, pos, name)?;
    read_text_list(buf, p)
}

/// Reads the field of the given name at `pos`.
fn read_field_pair_list(buf: &[u8], pos: usize, name: &str) -> (r: Result<(Vec<(String, String)>, usize), CborError>)
    requires
        pos <= buf.len(),
    ensures
        match r {
            Ok((x, next)) => field_at(buf@, pos as int, Field { name: name@, ty: FieldType::PairList })
                == Ok::<_, CborError>((FieldValue::PairList(x.deep_view()), next as int)) && pos < next <= buf.len(),
            Err(e) => field_at(buf@, pos as int, Field { name: name@, ty: FieldType::PairList })
                == Err::<(FieldValue, int), _>(e),
        },
{
    reveal(field_at);
    let p = read_key(buf, pos, name)?;
    read_pair_list(buf, p)
}

/// Reads the field of the given name at `pos`.
fn read_field_u64_pair(buf: &[u8], pos: usize, name: &str) -> (r: Result<((u64, u64), usize), CborError>)
    requires
        pos <= buf.len(),
    ensures
        match r {
            Ok((x, next)) => field_at(buf@, pos as int, Field { name: name@, ty: FieldType::U64Pair })
                == Ok::<_, CborError>((FieldValue::U64Pair(x.0, x.1), next as int)) && pos < next <= buf.len(),
            Err(e) => field_at(buf@, pos as int, Field { name: name@, ty: FieldType::U64Pair })
                == Err::<(FieldValue, int), _>(e),
        },
{
    reveal(field_at);
    let p = read_key(buf, pos, name)?;
    read_u64_pair(buf, p)
}

fn read_clock_body(buf: &[u8], pos: usize, kind: EventKind) -> (r: Result<
    (TraceEvent, usize),
    CborError,
>)
    requires
        pos <= buf.len(),
        kind == EventKind::ClockNow || kind == EventKind::ClockResolution,
    ensures
        match r {
            Ok((e, next)) => body_at(buf@, pos as int, kind) == Ok::<_, CborError>(
                (e@, next as int),
            ) && pos <= next <= buf.len(),
            Err(e) => body_at(buf@, pos as int, kind) == Err::<(EventModel, int), _>(e),
        },
{
    reveal(body_at);
    let ghost a0 = Seq::<FieldValue>::empty();
    proof {
        lemma_fields_step(buf@, pos as int, layout(kind), 0, a0);
    }
    let (seconds, at1) = read_field_u64(buf, pos, "seconds")?;
    let ghost a1 = a0.push(FieldValue::Int(seconds as int));
    proof {
        lemma_fields_step(buf@, at1 as int, layout(kind), 1, a1);
    }
    let (nanoseconds, at2) = read_field_u32(buf, at1, "nanoseconds")?;
    let ghost a2 = a1.push(FieldValue::Int(nanoseconds as int));
    proof {
        lemma_fields_step(buf@, at2 as int, layout(kind), 2, a2);
    }
    match kind {
        EventKind::ClockNow => Ok((TraceEvent::ClockNow { seconds, nanoseconds }, at2)),
        _ => Ok((TraceEvent::ClockResolution { seconds, nanoseconds }, at2)),
    }
}

fn read_u64_body(buf: &[u8], pos: usize, kind: EventKind) -> (r: Result<
    (TraceEvent, usize),
    CborError,
>)
    requires
        pos <= buf.len(),
        kind == EventKind::MonotonicClockNow || kind == EventKind::MonotonicClockResolution || kind
            == EventKind::RandomU64 || kind == EventKind::InsecureRandomU64,
    ensures
        match r {
            Ok((e, next)) => body_at(buf@, pos as int, kind) == Ok::<_, CborError>(
                (e@, next as int),
            ) && pos <= next <= buf.len(),
            Err(e) => body_at(buf@, pos as int, kind) == Err::<(EventModel, int), _>(e),
        },
{
    reveal(body_at);
    let ghost a0 = Seq::<FieldValue>::empty();
    proof {
        lemma_fields_step(buf@, pos as int, layout(kind), 0, a0);
    }
    match kind {
        EventKind::MonotonicClockNow => {
            let (x, at1) = read_field_u64(buf, pos, "nanoseconds")?;
            proof {
                lemma_fields_step(buf@, at1 as int, layout(kind), 1, a0.push(FieldValue::Int(x as int)));
            }
            Ok((TraceEvent::MonotonicClockNow { nanoseconds: x }, at1))
        },
        EventKind::MonotonicClockResolution => {
            let (x, at1) = read_field_u64(buf, pos, "nanoseconds")?;
            proof {
                lemma_fields_step(buf@, at1 as int, layout(kind), 1, a0.push(FieldValue::Int(x as int)));
            }
            Ok((TraceEvent::MonotonicClockResolution { nanoseconds: x }, at1))
        },
        EventKind::RandomU64 => {
            let (x, at1) = read_field_u64(buf, pos, "value")?;
            proof {
                lemma_fields_step(buf@, at1 as int, layout(kind), 1, a0.push(FieldValue::Int(x as int)));
            }
            Ok((TraceEvent::RandomU64 { value: x }, at1))
        },
        _ => {
            let (x, at1) = read_field_u64(buf, pos, "value")?;
            proof {
                lemma_fields_step(buf@, at1 as int, layout(kind), 1, a0.push(FieldValue::Int(x as int)));
            }
            Ok((TraceEvent::InsecureRandomU64 { value: x }, at1))
        },
    }
}

fn read_bytes_body(buf: &[u8], pos: usize, kind: EventKind) -> (r: Result<
    (TraceEvent, usize),
    CborError,
>)
    requires
        pos <= buf.len(),
        kind == EventKind::RandomBytes || kind == EventKind::InsecureRandomBytes,
    ensures
        match r {
            Ok((e, next)) => body_at(buf@, pos as int, kind) == Ok::<_, CborError>(
                (e@, next as int),
            ) && pos <= next <= buf.len(),
            Err(e) => body_at(buf@, pos as int, kind) == Err::<(EventModel, int), _>(e),
        },
{
    reveal(body_at);
    let ghost a0 = Seq::<FieldValue>::empty();
    proof {
        lemma_fields_step(buf@, pos as int, layout(kind), 0, a0);
    }
    match kind {
        EventKind::RandomBytes => {
            let (x, at1) = read_field_bytes(buf, pos, "bytes")?;
            proof {
                lemma_fields_step(buf@, at1 as int, layout(kind), 1, a0.push(FieldValue::Bytes(x@)));
            }
            Ok((TraceEvent::RandomBytes { bytes: x }, at1))
        },
        _ => {
            let (x, at1) = read_field_bytes(buf, pos, "bytes")?;
            proof {
                lemma_fields_step(buf@, at1 as int, layout(kind), 1, a0.push(FieldValue::Bytes(x@)));
            }
            Ok((TraceEvent::InsecureRandomBytes { bytes: x }, at1))
        },
    }
}

fn read_list_body(buf: &[u8], pos: usize, kind: EventKind) -> (r: Result<
    (TraceEvent, usize),
    CborError,
>)
    requires
        pos <= buf.len(),
        kind == EventKind::Environment || kind == EventKind::Arguments,
    ensures
        match r {
            Ok((e, next)) => body_at(buf@, pos as int, kind) == Ok::<_, CborError>(
                (e@, next as int),
            ) && pos <= next <= buf.len(),
            Err(e) => body_at(buf@, pos as int, kind) == Err::<(EventModel, int), _>(e),
        },
{
    reveal(body_at);
    let ghost a0 = Seq::<FieldValue>::empty();
    proof {
        lemma_fields_step(buf@, pos as int, layout(kind), 0, a0);
    }
    match kind {
        EventKind::Environment => {
            let (x, at1) = read_field_pair_list(buf, pos, "entries")?;
            proof {
                lemma_fields_step(buf@, at1 as int, layout(kind), 1, a0.push(FieldValue::PairList(x.deep_view())));
            }
            Ok((TraceEvent::Environment { entries: x }, at1))
        },
        _ => {
            let (x, at1) = read_field_text_list(buf, pos, "args")?;
            proof {
                lemma_fields_step(buf@, at1 as int, layout(kind), 1, a0.push(FieldValue::TextList(x.deep_view())));
            }
            Ok((TraceEvent::Arguments { args: x }, at1))
        },
    }
}

fn read_other_body(buf: &[u8], pos: usize, kind: EventKind) -> (r: Result<
    (TraceEvent, usize),
    CborError,
>)
    requires
        pos <= buf.len(),
        kind == EventKind::InitialCwd || kind == EventKind::InsecureSeed || kind == EventKind::Exit,
    ensures
        match r {
            Ok((e, next)) => body_at(buf@, pos as int, kind) == Ok::<_, CborError>(
                (e@, next as int),
            ) && pos <= next <= buf.len(),
            Err(e) => body_at(buf@, pos as int, kind) == Err::<(EventModel, int), _>(e),
        },
{
    reveal(body_at);
    let ghost a0 = Seq::<FieldValue>::empty();
    proof {
        lemma_fields_step(buf@, pos as int, layout(kind), 0, a0);
    }
    match kind {
        EventKind::InitialCwd => {
            let (x, at1) = read_field_opt_text(buf, pos, "path")?;
            proof {
                lemma_fields_step(buf@, at1 as int, layout(kind), 1, a0.push(FieldValue::OptText(x.deep_view())));
            }
            Ok((TraceEvent::InitialCwd { path: x }, at1))
        },
        EventKind::InsecureSeed => {
            let (x, at1) = read_field_u64_pair(buf, pos, "seed")?;
            proof {
                lemma_fields_step(buf@, at1 as int, layout(kind), 1, a0.push(FieldValue::U64Pair(x.0, x.1)));
            }
            Ok((TraceEvent::InsecureSeed { seed: x }, at1))
        },
        _ => {
            let (x, at1) = read_field_i32(buf, pos, "code")?;
            proof {
                lemma_fields_step(buf@, at1 as int, layout(kind), 1, a0.push(FieldValue::Int(x as int)));
            }
            Ok((TraceEvent::Exit { code: x }, at1))
        },
    }
}

fn read_http_body(buf: &[u8], pos: usize) -> (r: Result<(TraceEvent, usize), CborError>)
    requires
        pos <= buf.len(),
    ensures
        match r {
            Ok((e, next)) => body_at(buf@, pos as int, EventKind::HttpResponse) == Ok::<
                _,
                CborError,
            >((e@, next as int)) && pos <= next <= buf.len(),
            Err(e) => body_at(buf@, pos as int, EventKind::HttpResponse) == Err::<
                (EventModel, int),
                _,
            >(e),
        },
{
    reveal(body_at);
    let ghost fields = layout(EventKind::HttpResponse);
    let ghost a0 = Seq::<FieldValue>::empty();
    proof {
        lemma_fields_step(buf@, pos as int, fields, 0, a0);
    }
    let (request_method, at1) = read_field_text(buf, pos, "request_method")?;
    let ghost a1 = a0.push(FieldValue::Text(request_method@));
    proof {
        lemma_fields_step(buf@, at1 as int, fields, 1, a1);
    }
    let (request_url, at2) = read_field_text(buf, at1, "request_url")?;
    let ghost a2 = a1.push(FieldValue::Text(request_url@));
    proof {
        lemma_fields_step(buf@, at2 as int, fields, 2, a2);
    }
    let (request_headers, at3) = read_field_pair_list(buf, at2, "request_headers")?;
    let ghost a3 = a2.push(FieldValue::PairList(request_headers.deep_view()));
    proof {
        lemma_fields_step(buf@, at3 as int, fields, 3, a3);
    }
    let (status, at4) = read_field_u16(buf, at3, "status")?;
    let ghost a4 = a3.push(FieldValue::Int(status as int));
    proof {
        lemma_fields_step(buf@, at4 as int, fields, 4, a4);
    }
    let (headers, at5) = read_field_pair_list(buf, at4, "headers")?;
    let ghost a5 = a4.push(FieldValue::PairList(headers.deep_view()));
    proof {
        lemma_fields_step(buf@, at5 as int, fields, 5, a5);
    }
    let (body, at6) = read_field_bytes(buf, at5, "body")?;
    let ghost a6 = a5.push(FieldValue::Bytes(body@));
    proof {
        lemma_fields_step(buf@, at6 as int, fields, 6, a6);
    }
    Ok(
        (
            TraceEvent::HttpResponse {
                request_method,
                request_url,
                request_headers,
                status,
                headers,
                body,
            },
            at6,
        ),
    )
}

/// Reads every event that the bytes hold. Bytes that end where an event
/// ends, or in the middle of one, end the trace; bytes that are no event are
/// refused.
pub fn read_events(buf: &[u8]) -> (r: Result<Vec<TraceEvent>, CborError>)
    ensures
        match r {
            Ok(events) => events_from(buf@, 0) == (events.deep_view(), false),
            Err(e) => events_from(buf@, 0).1 && e == CborError::Malformed,
        },
{
    let mut out: Vec<TraceEvent> = Vec::new();
    let mut p: usize = 0;
    assert(out.deep_view() =~= Seq::<EventModel>::empty());
    loop
        invariant
            p <= buf.len(),
            events_from(buf@, 0) == (
                out.deep_view() + events_from(buf@, p as int).0,
                events_from(buf@, p as int).1,
            ),
        decreases buf.len() - p,
    {
        match read_event(buf, p) {
            Err(CborError::Truncated) => {
                assert(out.deep_view() + Seq::<EventModel>::empty() =~= out.deep_view());
                return Ok(out);
            },
            Err(CborError::Malformed) => {
                return Err(CborError::Malformed);
            },
            Ok((e, next)) => {
                let ghost before = out.deep_view();
                let ghost model = e@;
                out.push(e);
                assert(out.deep_view() =~= before.push(model));
                assert(before.push(model) + events_from(buf@, next as int).0 =~= before + (
                    seq![model] + events_from(buf@, next as int).0
                ));
                p = next;
            },
        }
    }
}


/// The two big-endian bytes of `n`.
pub open spec fn be2_bytes(n: int) -> Seq<u8> {
    seq![(n / 256) as u8, (n % 256) as u8]
}

/// The four big-endian bytes of `n`.
pub open spec fn be4_bytes(n: int) -> Seq<u8> {
    be2_bytes(n / 65536) + be2_bytes(n % 65536)
}

/// The eight big-endian bytes of `n`.
pub open spec fn be8_bytes(n: int) -> Seq<u8> {
    be4_bytes(n / 4294967296) + be4_bytes(n % 4294967296)
}

/// The head of an item of the given major type with the given argument, in
/// the shortest of its forms.
pub open spec fn head_bytes(major: u8, arg: u64) -> Seq<u8> {
    if arg < 24 {
        seq![(major * 32 + arg) as u8]
    } else if arg < 256 {
        seq![(major * 32 + 24) as u8, arg as u8]
    } else if arg < 65536 {
        seq![(major * 32 + 25) as u8] + be2_bytes(arg as int)
    } else if arg < 4294967296 {
        seq![(major * 32 + 26) as u8] + be4_bytes(arg as int)
    } else {
        seq![(major * 32 + 27) as u8] + be8_bytes(arg as int)
    }
}

/// An integer: a non-negative one under the major type of unsigned integers,
/// a negative one `n` as `-1 - n` under that of negative integers.
pub open spec fn int_bytes(n: int) -> Seq<u8> {
    if n >= 0 {
        head_bytes(MAJOR_UINT, n as u64)
    } else {
        head_bytes(MAJOR_NEGATIVE, (-1 - n) as u64)
    }
}

/// A string of the given major type: its length, then its payload.
pub open spec fn blob_bytes(major: u8, payload: Seq<u8>) -> Seq<u8> {
    head_bytes(major, payload.len() as u64) + payload
}

/// A text string: its UTF-8 bytes under the major type of text.
pub open spec fn text_bytes(t: Seq<char>) -> Seq<u8> {
    blob_bytes(MAJOR_TEXT, utf8(t))
}

/// A text string, or the null byte for an absent one.
pub open spec fn opt_text_bytes(t: Option<Seq<char>>) -> Seq<u8> {
    match t {
        None => seq![NULL_BYTE],
        Some(t) => text_bytes(t),
    }
}

/// Text strings, one after the other.
pub open spec fn texts_bytes(l: Seq<Seq<char>>) -> Seq<u8>
    decreases l.len(),
{
    if l.len() == 0 {
        Seq::empty()
    } else {
        text_bytes(l[0]) + texts_bytes(l.drop_first())
    }
}

/// A pair: an array of two text strings.
pub open spec fn pair_bytes(p: (Seq<char>, Seq<char>)) -> Seq<u8> {
    head_bytes(MAJOR_ARRAY, 2) + text_bytes(p.0) + text_bytes(p.1)
}

/// Pairs, one after the other.
pub open spec fn pairs_bytes(l: Seq<(Seq<char>, Seq<char>)>) -> Seq<u8>
    decreases l.len(),
{
    if l.len() == 0 {
        Seq::empty()
    } else {
        pair_bytes(l[0]) + pairs_bytes(l.drop_first())
    }
}

/// The value of a field.
pub open spec fn value_bytes(v: FieldValue) -> Seq<u8> {
    match v {
        FieldValue::Int(n) => int_bytes(n),
        FieldValue::Text(t) => text_bytes(t),
        FieldValue::OptText(t) => opt_text_bytes(t),
        FieldValue::Bytes(b) => blob_bytes(MAJOR_BYTES, b),
        FieldValue::TextList(l) => head_bytes(MAJOR_ARRAY, l.len() as u64) + texts_bytes(l),
        FieldValue::PairList(l) => head_bytes(MAJOR_ARRAY, l.len() as u64) + pairs_bytes(l),
        FieldValue::U64Pair(a, b) => head_bytes(MAJOR_ARRAY, 2) + int_bytes(a as int) + int_bytes(
            b as int,
        ),
    }
}

/// The fields from the `i`-th on: each one's name, then its value.
#[verifier::opaque]
pub open spec fn fields_bytes(fields: Seq<Field>, values: Seq<FieldValue>, i: int) -> Seq<u8>
    decreases fields.len() - i,
{
    if i < 0 || i >= fields.len() {
        Seq::empty()
    } else {
        text_bytes(fields[i].name) + value_bytes(values[i]) + fields_bytes(fields, values, i + 1)
    }
}

/// Writing the fields from the `i`-th on is writing the `i`-th and then the rest.
pub proof fn lemma_fields_bytes_step(fields: Seq<Field>, values: Seq<FieldValue>, i: int)
    ensures
        fields_bytes(fields, values, i) == if i < 0 || i >= fields.len() {
            Seq::<u8>::empty()
        } else {
            text_bytes(fields[i].name) + value_bytes(values[i]) + fields_bytes(
                fields,
                values,
                i + 1,
            )
        },
{
    reveal(fields_bytes);
}

/// An event: a map of its tag and its fields.
pub open spec fn event_bytes(e: EventModel) -> Seq<u8> {
    event_head_bytes(e.kind()) + fields_bytes(layout(e.kind()), fields_of(e), 0)
}

/// A trace: its events, one after the other.
pub open spec fn trace_bytes(events: Seq<EventModel>) -> Seq<u8>
    decreases events.len(),
{
    if events.len() == 0 {
        Seq::empty()
    } else {
        event_bytes(events[0]) + trace_bytes(events.drop_first())
    }
}

fn write_be2(out: &mut Vec<u8>, n: u64)
    requires
        n < 65536,
    ensures
        final(out)@ == old(out)@ + be2_bytes(n as int),
{
    out.push((n / 256) as u8);
    out.push((n % 256) as u8);
    assert(out@ =~= old(out)@ + be2_bytes(n as int));
}

fn write_be4(out: &mut Vec<u8>, n: u64)
    requires
        n < 4294967296,
    ensures
        final(out)@ == old(out)@ + be4_bytes(n as int),
{
    write_be2(out, n / 65536);
    write_be2(out, n % 65536);
    assert(out@ =~= old(out)@ + be4_bytes(n as int));
}

/// Writes the head of an item.
pub fn write_head(out: &mut Vec<u8>, major: u8, arg: u64)
    requires
        major < 8,
    ensures
        final(out)@ == old(out)@ + head_bytes(major, arg),
{
    let m: u8 = major * 32;
    if arg < 24 {
        out.push(m + arg as u8);
    } else if arg < 256 {
        out.push(m + 24);
        out.push(arg as u8);
    } else if arg < 65536 {
        out.push(m + 25);
        write_be2(out, arg);
    } else if arg < 4294967296 {
        out.push(m + 26);
        write_be4(out, arg);
    } else {
        out.push(m + 27);
        write_be4(out, arg / 4294967296);
        write_be4(out, arg % 4294967296);
    }
    assert(out@ =~= old(out)@ + head_bytes(major, arg));
}

/// Writes an unsigned integer.
pub fn write_uint(out: &mut Vec<u8>, n: u64)
    ensures
        final(out)@ == old(out)@ + int_bytes(n as int),
{
    write_head(out, MAJOR_UINT, n);
}

/// Writes a signed 32-bit integer.
pub fn write_i32(out: &mut Vec<u8>, n: i32)
    ensures
        final(out)@ == old(out)@ + int_bytes(n as int),
{
    if n >= 0 {
        write_head(out, MAJOR_UINT, n as u64);
    } else {
        write_head(out, MAJOR_NEGATIVE, (-1 - n) as u64);
    }
}

/// Writes a byte string.
pub fn write_bytes(out: &mut Vec<u8>, b: &[u8])
    ensures
        final(out)@ == old(out)@ + blob_bytes(MAJOR_BYTES, b@),
{
    write_head(out, MAJOR_BYTES, b.len() as u64);
    append(out, b);
    assert(out@ =~= old(out)@ + blob_bytes(MAJOR_BYTES, b@));
}

/// Writes a text string.
pub fn write_text(out: &mut Vec<u8>, t: &str)
    ensures
        final(out)@ == old(out)@ + text_bytes(t@),
{
    let b = t.as_bytes();
    write_head(out, MAJOR_TEXT, b.len() as u64);
    append(out, b);
    assert(out@ =~= old(out)@ + text_bytes(t@));
}

/// Writes a text string, or the null byte for an absent one.
pub fn write_opt_text(out: &mut Vec<u8>, t: &Option<String>)
    ensures
        final(out)@ == old(out)@ + opt_text_bytes(t.deep_view()),
{
    match t {
        None => {
            out.push(NULL_BYTE);
            assert(out@ =~= old(out)@ + opt_text_bytes(t.deep_view()));
        },
        Some(text) => {
            write_text(out, text.as_str());
        },
    }
}

/// Writes an array of text strings.
pub fn write_text_list(out: &mut Vec<u8>, l: &Vec<String>)
    ensures
        final(out)@ == old(out)@ + value_bytes(FieldValue::TextList(l.deep_view())),
{
    write_head(out, MAJOR_ARRAY, l.len() as u64);
    let ghost target = old(out)@ + value_bytes(FieldValue::TextList(l.deep_view()));
    let mut i: usize = 0;
    assert(l.deep_view().skip(0) =~= l.deep_view());
    assert(out@ + texts_bytes(l.deep_view()) =~= target);
    while i < l.len()
        invariant
            i <= l.len(),
            out@ + texts_bytes(l.deep_view().skip(i as int)) == target,
        decreases l.len() - i,
    {
        let ghost rest = l.deep_view().skip(i as int);
        let ghost before = out@;
        write_text(out, l[i].as_str());
        proof {
            assert(rest.drop_first() =~= l.deep_view().skip(i + 1));
            assert(rest[0] == l[i as int]@);
            assert(before + texts_bytes(rest) =~= out@ + texts_bytes(rest.drop_first()));
        }
        i += 1;
    }
    assert(out@ + texts_bytes(l.deep_view().skip(i as int)) =~= out@);
}

/// Writes a pair.
pub fn write_pair(out: &mut Vec<u8>, p: &(String, String))
    ensures
        final(out)@ == old(out)@ + pair_bytes((p.0@, p.1@)),
{
    write_head(out, MAJOR_ARRAY, 2);
    write_text(out, p.0.as_str());
    write_text(out, p.1.as_str());
    assert(out@ =~= old(out)@ + pair_bytes((p.0@, p.1@)));
}

/// Writes an array of pairs.
pub fn write_pair_list(out: &mut Vec<u8>, l: &Vec<(String, String)>)
    ensures
        final(out)@ == old(out)@ + value_bytes(FieldValue::PairList(l.deep_view())),
{
    write_head(out, MAJOR_ARRAY, l.len() as u64);
    let ghost target = old(out)@ + value_bytes(FieldValue::PairList(l.deep_view()));
    let mut i: usize = 0;
    assert(l.deep_view().skip(0) =~= l.deep_view());
    assert(out@ + pairs_bytes(l.deep_view()) =~= target);
    while i < l.len()
        invariant
            i <= l.len(),
            out@ + pairs_bytes(l.deep_view().skip(i as int)) == target,
        decreases l.len() - i,
    {
        let ghost rest = l.deep_view().skip(i as int);
        let ghost before = out@;
        write_pair(out, &l[i]);
        proof {
            assert(rest.drop_first() =~= l.deep_view().skip(i + 1));
            assert(rest[0] == (l[i as int].0@, l[i as int].1@));
            assert(before + pairs_bytes(rest) =~= out@ + pairs_bytes(rest.drop_first()));
        }
        i += 1;
    }
    assert(out@ + pairs_bytes(l.deep_view().skip(i as int)) =~= out@);
}

/// Writes an array of two unsigned integers.
pub fn write_u64_pair(out: &mut Vec<u8>, a: u64, b: u64)
    ensures
        final(out)@ == old(out)@ + value_bytes(FieldValue::U64Pair(a, b)),
{
    write_head(out, MAJOR_ARRAY, 2);
    write_uint(out, a);
    write_uint(out, b);
    assert(out@ =~= old(out)@ + value_bytes(FieldValue::U64Pair(a, b)));
}


/// Writes the six fields of an HTTP event.
fn write_http_fields(
    out: &mut Vec<u8>,
    request_method: &String,
    request_url: &String,
    request_headers: &Vec<(String, String)>,
    status: u16,
    headers: &Vec<(String, String)>,
    body: &Vec<u8>,
)
    ensures
        final(out)@ == old(out)@ + fields_bytes(
            layout(EventKind::HttpResponse),
            fields_of(
                EventModel::HttpResponse {
                    request_method: request_method@,
                    request_url: request_url@,
                    request_headers: request_headers.deep_view(),
                    status,
                    headers: headers.deep_view(),
                    body: body@,
                },
            ),
            0,
        ),
{
    let ghost fields = layout(EventKind::HttpResponse);
    let ghost values = fields_of(
        EventModel::HttpResponse {
            request_method: request_method@,
            request_url: request_url@,
            request_headers: request_headers.deep_view(),
            status,
            headers: headers.deep_view(),
            body: body@,
        },
    );
    let ghost target = old(out)@ + fields_bytes(fields, values, 0);
    let ghost o0 = out@;
    write_text(out, "request_method");
    let ghost m0 = out@;
    write_text(out, request_method.as_str());
    let ghost o1 = out@;
    proof {
        lemma_fields_bytes_step(fields, values, 0);
        lemma_field_written(o0, m0, o1, fields, values, 0);
    }
    write_text(out, "request_url");
    let ghost m1 = out@;
    write_text(out, request_url.as_str());
    let ghost o2 = out@;
    proof {
        lemma_field_written(o1, m1, o2, fields, values, 1);
    }
    write_text(out, "request_headers");
    let ghost m2 = out@;
    write_pair_list(out, request_headers);
    let ghost o3 = out@;
    proof {
        lemma_field_written(o2, m2, o3, fields, values, 2);
    }
    write_text(out, "status");
    let ghost m3 = out@;
    write_uint(out, status as u64);
    let ghost o4 = out@;
    proof {
        lemma_field_written(o3, m3, o4, fields, values, 3);
    }
    write_text(out, "headers");
    let ghost m4 = out@;
    write_pair_list(out, headers);
    let ghost o5 = out@;
    proof {
        lemma_field_written(o4, m4, o5, fields, values, 4);
    }
    write_text(out, "body");
    let ghost m5 = out@;
    write_bytes(out, body.as_slice());
    let ghost o6 = out@;
    proof {
        lemma_field_written(o5, m5, o6, fields, values, 5);
        lemma_fields_bytes_step(fields, values, 6);
        assert(o6 + Seq::<u8>::empty() =~= o6);
    }
}

/// Once the `i`-th field's name and value stand behind what was written,
/// what is left to write are the fields behind the `i`-th.
proof fn lemma_field_written(
    before: Seq<u8>,
    mid: Seq<u8>,
    after: Seq<u8>,
    fields: Seq<Field>,
    values: Seq<FieldValue>,
    i: int,
)
    requires
        0 <= i < fields.len(),
        mid == before + text_bytes(fields[i].name),
        after == mid + value_bytes(values[i]),
    ensures
        after + fields_bytes(fields, values, i + 1) == before + fields_bytes(fields, values, i),
{
    lemma_fields_bytes_step(fields, values, i);
    assert(after + fields_bytes(fields, values, i + 1) =~= before + fields_bytes(fields, values, i));
}

/// Writes the fields of an event: each one's name, then its value.
fn write_fields(out: &mut Vec<u8>, e: &TraceEvent)
    ensures
        final(out)@ == old(out)@ + fields_bytes(layout(e@.kind()), fields_of(e@), 0),
{
    let ghost fields = layout(e@.kind());
    let ghost values = fields_of(e@);
    match e {
        TraceEvent::ClockNow { seconds, nanoseconds } => {
            write_text(out, "seconds");
            let ghost m0 = out@;
            write_uint(out, *seconds);
            let ghost o1 = out@;
            write_text(out, "nanoseconds");
            let ghost m1 = out@;
            write_uint(out, *nanoseconds as u64);
            proof {
                lemma_field_written(old(out)@, m0, o1, fields, values, 0);
                lemma_field_written(o1, m1, out@, fields, values, 1);
                lemma_fields_bytes_step(fields, values, 2);
                assert(out@ + Seq::<u8>::empty() =~= out@);
            }
        },
        TraceEvent::ClockResolution { seconds, nanoseconds } => {
            write_text(out, "seconds");
            let ghost m0 = out@;
            write_uint(out, *seconds);
            let ghost o1 = out@;
            write_text(out, "nanoseconds");
            let ghost m1 = out@;
            write_uint(out, *nanoseconds as u64);
            proof {
                lemma_field_written(old(out)@, m0, o1, fields, values, 0);
                lemma_field_written(o1, m1, out@, fields, values, 1);
                lemma_fields_bytes_step(fields, values, 2);
                assert(out@ + Seq::<u8>::empty() =~= out@);
            }
        },
        TraceEvent::MonotonicClockNow { nanoseconds } => {
            write_text(out, "nanoseconds");
            let ghost mid = out@;
            write_uint(out, *nanoseconds);
            proof {
                lemma_field_written(old(out)@, mid, out@, fields, values, 0);
                lemma_fields_bytes_step(fields, values, 1);
                assert(out@ + Seq::<u8>::empty() =~= out@);
            }
        },
        TraceEvent::MonotonicClockResolution { nanoseconds } => {
            write_text(out, "nanoseconds");
            let ghost mid = out@;
            write_uint(out, *nanoseconds);
            proof {
                lemma_field_written(old(out)@, mid, out@, fields, values, 0);
                lemma_fields_bytes_step(fields, values, 1);
                assert(out@ + Seq::<u8>::empty() =~= out@);
            }
        },
        TraceEvent::Environment { entries } => {
            write_text(out, "entries");
            let ghost mid = out@;
            write_pair_list(out, entries);
            proof {
                lemma_field_written(old(out)@, mid, out@, fields, values, 0);
                lemma_fields_bytes_step(fields, values, 1);
                assert(out@ + Seq::<u8>::empty() =~= out@);
            }
        },
        TraceEvent::Arguments { args } => {
            write_text(out, "args");
            let ghost mid = out@;
            write_text_list(out, args);
            proof {
                lemma_field_written(old(out)@, mid, out@, fields, values, 0);
                lemma_fields_bytes_step(fields, values, 1);
                assert(out@ + Seq::<u8>::empty() =~= out@);
            }
        },
        TraceEvent::InitialCwd { path } => {
            write_text(out, "path");
            let ghost mid = out@;
            write_opt_text(out, path);
            proof {
                lemma_field_written(old(out)@, mid, out@, fields, values, 0);
                lemma_fields_bytes_step(fields, values, 1);
                assert(out@ + Seq::<u8>::empty() =~= out@);
            }
        },
        TraceEvent::RandomBytes { bytes } => {
            write_text(out, "bytes");
            let ghost mid = out@;
            write_bytes(out, bytes.as_slice());
            proof {
                lemma_field_written(old(out)@, mid, out@, fields, values, 0);
                lemma_fields_bytes_step(fields, values, 1);
                assert(out@ + Seq::<u8>::empty() =~= out@);
            }
        },
        TraceEvent::InsecureRandomBytes { bytes } => {
            write_text(out, "bytes");
            let ghost mid = out@;
            write_bytes(out, bytes.as_slice());
            proof {
                lemma_field_written(old(out)@, mid, out@, fields, values, 0);
                lemma_fields_bytes_step(fields, values, 1);
                assert(out@ + Seq::<u8>::empty() =~= out@);
            }
        },
        TraceEvent::RandomU64 { value } => {
            write_text(out, "value");
            let ghost mid = out@;
            write_uint(out, *value);
            proof {
                lemma_field_written(old(out)@, mid, out@, fields, values, 0);
                lemma_fields_bytes_step(fields, values, 1);
                assert(out@ + Seq::<u8>::empty() =~= out@);
            }
        },
        TraceEvent::InsecureRandomU64 { value } => {
            write_text(out, "value");
            let ghost mid = out@;
            write_uint(out, *value);
            proof {
                lemma_field_written(old(out)@, mid, out@, fields, values, 0);
                lemma_fields_bytes_step(fields, values, 1);
                assert(out@ + Seq::<u8>::empty() =~= out@);
            }
        },
        TraceEvent::InsecureSeed { seed } => {
            write_text(out, "seed");
            let ghost mid = out@;
            write_u64_pair(out, seed.0, seed.1);
            proof {
                lemma_field_written(old(out)@, mid, out@, fields, values, 0);
                lemma_fields_bytes_step(fields, values, 1);
                assert(out@ + Seq::<u8>::empty() =~= out@);
            }
        },
        TraceEvent::Read => {
            proof {
                lemma_fields_bytes_step(fields, values, 0);
                assert(out@ + Seq::<u8>::empty() =~= out@);
            }
        },
        TraceEvent::HttpResponse {
            request_method,
            request_url,
            request_headers,
            status,
            headers,
            body,
        } => {
            write_http_fields(
                out,
                request_method,
                request_url,
                request_headers,
                *status,
                headers,
                body,
            );
        },
        TraceEvent::Exit { code } => {
            write_text(out, "code");
            let ghost mid = out@;
            write_i32(out, *code);
            proof {
                lemma_field_written(old(out)@, mid, out@, fields, values, 0);
                lemma_fields_bytes_step(fields, values, 1);
                assert(out@ + Seq::<u8>::empty() =~= out@);
            }
        },
    }
}

/// Writes an event.
pub fn write_event(out: &mut Vec<u8>, e: &TraceEvent)
    ensures
        final(out)@ == old(out)@ + event_bytes(e@),
{
    let kind = e.kind();
    write_head(out, MAJOR_MAP, field_count(kind) + 1);
    write_text(out, "call");
    write_text(out, tag_of(kind));
    write_fields(out, e);
    assert(out@ =~= old(out)@ + event_bytes(e@));
}

/// Writes the events of a trace, one after the other.
pub fn write_events(out: &mut Vec<u8>, events: &Vec<TraceEvent>)
    ensures
        final(out)@ == old(out)@ + trace_bytes(events.deep_view()),
{
    let ghost target = old(out)@ + trace_bytes(events.deep_view());
    let mut i: usize = 0;
    assert(events.deep_view().skip(0) =~= events.deep_view());
    while i < events.len()
        invariant
            i <= events.len(),
            out@ + trace_bytes(events.deep_view().skip(i as int)) == target,
        decreases events.len() - i,
    {
        let ghost rest = events.deep_view().skip(i as int);
        let ghost before = out@;
        write_event(out, &events[i]);
        proof {
            assert(rest.drop_first() =~= events.deep_view().skip(i + 1));
            assert(rest[0] == events[i as int]@);
            assert(before + trace_bytes(rest) =~= out@ + trace_bytes(rest.drop_first()));
        }
        i += 1;
    }
    assert(out@ + trace_bytes(events.deep_view().skip(i as int)) =~= out@);
}


/// True when the text is short enough for its length to be written.
pub open spec fn text_fits(t: Seq<char>) -> bool {
    utf8(t).len() <= u64::MAX
}

/// True when a pair's two texts are short enough.
pub open spec fn pair_fits(p: (Seq<char>, Seq<char>)) -> bool {
    text_fits(p.0) && text_fits(p.1)
}

/// True when the value can be written: every length in it fits 64 bits.
pub open spec fn value_fits(v: FieldValue) -> bool {
    match v {
        FieldValue::Int(_) => true,
        FieldValue::Text(t) => text_fits(t),
        FieldValue::OptText(t) => t matches Some(t) ==> text_fits(t),
        FieldValue::Bytes(b) => b.len() <= u64::MAX,
        FieldValue::TextList(l) => l.len() <= u64::MAX && forall|i: int|
            0 <= i < l.len() ==> text_fits(#[trigger] l[i]),
        FieldValue::PairList(l) => l.len() <= u64::MAX && forall|i: int|
            0 <= i < l.len() ==> pair_fits(#[trigger] l[i]),
        FieldValue::U64Pair(_, _) => true,
    }
}

/// True when the event can be written: every length in it fits 64 bits.
pub open spec fn event_fits(e: EventModel) -> bool {
    forall|i: int| 0 <= i < fields_of(e).len() ==> value_fits(#[trigger] fields_of(e)[i])
}

/// True when every event of the trace can be written.
pub open spec fn trace_fits(events: Seq<EventModel>) -> bool {
    forall|i: int| 0 <= i < events.len() ==> event_fits(#[trigger] events[i])
}

proof fn lemma_be2(s: Seq<u8>, p: int, n: int)
    requires
        holds_at(s, p, be2_bytes(n)),
        0 <= n < 65536,
    ensures
        be2(s, p) == n,
{
    lemma_holds_index(s, p, be2_bytes(n), 0);
    lemma_holds_index(s, p, be2_bytes(n), 1);
}

proof fn lemma_be4(s: Seq<u8>, p: int, n: int)
    requires
        holds_at(s, p, be4_bytes(n)),
        0 <= n < 4294967296,
    ensures
        be4(s, p) == n,
{
    lemma_holds_split(s, p, be2_bytes(n / 65536), be2_bytes(n % 65536));
    lemma_be2(s, p, n / 65536);
    lemma_be2(s, p + 2, n % 65536);
}

proof fn lemma_be8(s: Seq<u8>, p: int, n: int)
    requires
        holds_at(s, p, be8_bytes(n)),
        0 <= n <= u64::MAX,
    ensures
        be8(s, p) == n,
{
    lemma_holds_split(s, p, be4_bytes(n / 4294967296), be4_bytes(n % 4294967296));
    lemma_be4(s, p, n / 4294967296);
    lemma_be4(s, p + 4, n % 4294967296);
}

/// A head that was written is the head that is read.
pub proof fn lemma_head(s: Seq<u8>, pos: int, major: u8, arg: u64)
    requires
        holds_at(s, pos, head_bytes(major, arg)),
        major < 8,
    ensures
        head_at(s, pos) == Ok::<_, CborError>((major, arg, pos + head_bytes(major, arg).len())),
        head_bytes(major, arg).len() >= 1,
        s[pos] == major * 32 + s[pos] % 32,
{
    let hb = head_bytes(major, arg);
    lemma_holds_index(s, pos, hb, 0);
    if arg < 24 {
    } else if arg < 256 {
        lemma_holds_index(s, pos, hb, 1);
    } else if arg < 65536 {
        lemma_holds_split(s, pos, seq![(major * 32 + 25) as u8], be2_bytes(arg as int));
        lemma_be2(s, pos + 1, arg as int);
    } else if arg < 4294967296 {
        lemma_holds_split(s, pos, seq![(major * 32 + 26) as u8], be4_bytes(arg as int));
        lemma_be4(s, pos + 1, arg as int);
    } else {
        lemma_holds_split(s, pos, seq![(major * 32 + 27) as u8], be8_bytes(arg as int));
        lemma_be8(s, pos + 1, arg as int);
    }
}

/// An integer that was written is the unsigned integer that is read, where
/// it is within the bound.
pub proof fn lemma_uint(s: Seq<u8>, pos: int, n: int, max: u64)
    requires
        holds_at(s, pos, int_bytes(n)),
        0 <= n <= max,
    ensures
        uint_at(s, pos, max) == Ok::<_, CborError>((n as u64, pos + int_bytes(n).len())),
{
    lemma_head(s, pos, MAJOR_UINT, n as u64);
}

/// An integer that was written is the signed integer that is read.
pub proof fn lemma_i32(s: Seq<u8>, pos: int, n: int)
    requires
        holds_at(s, pos, int_bytes(n)),
        i32::MIN <= n <= i32::MAX,
    ensures
        i32_at(s, pos) == Ok::<_, CborError>((n as i32, pos + int_bytes(n).len())),
{
    if n >= 0 {
        lemma_head(s, pos, MAJOR_UINT, n as u64);
    } else {
        lemma_head(s, pos, MAJOR_NEGATIVE, (-1 - n) as u64);
    }
}

/// A string that was written is found where it was written.
pub proof fn lemma_blob(s: Seq<u8>, pos: int, major: u8, payload: Seq<u8>)
    requires
        holds_at(s, pos, blob_bytes(major, payload)),
        major < 8,
        payload.len() <= u64::MAX,
    ensures
        blob_at(s, pos, major) == Ok::<_, CborError>(
            (
                pos + head_bytes(major, payload.len() as u64).len(),
                pos + blob_bytes(major, payload).len(),
            ),
        ),
        s.subrange(
            pos + head_bytes(major, payload.len() as u64).len(),
            pos + blob_bytes(major, payload).len(),
        ) == payload,
        s[pos] == major * 32 + s[pos] % 32,
{
    lemma_holds_split(s, pos, head_bytes(major, payload.len() as u64), payload);
    lemma_head(s, pos, major, payload.len() as u64);
}

/// A text that was written is the text that is read.
pub proof fn lemma_text(s: Seq<u8>, pos: int, t: Seq<char>)
    requires
        holds_at(s, pos, text_bytes(t)),
        text_fits(t),
    ensures
        text_at(s, pos) == Ok::<_, CborError>((t, pos + text_bytes(t).len())),
        key_at(s, pos, t) == Ok::<_, CborError>(pos + text_bytes(t).len()),
        0 <= pos < s.len(),
        s[pos] != NULL_BYTE,
{
    lemma_blob(s, pos, MAJOR_TEXT, utf8(t));
    vstd::utf8::encode_utf8_valid_utf8(t);
    vstd::utf8::encode_utf8_decode_utf8(t);
}

/// An optional text that was written is the one that is read.
pub proof fn lemma_opt_text(s: Seq<u8>, pos: int, t: Option<Seq<char>>)
    requires
        holds_at(s, pos, opt_text_bytes(t)),
        t matches Some(text) ==> text_fits(text),
    ensures
        opt_text_at(s, pos) == Ok::<_, CborError>((t, pos + opt_text_bytes(t).len())),
{
    match t {
        None => {
            lemma_holds_index(s, pos, opt_text_bytes(t), 0);
        },
        Some(text) => {
            lemma_text(s, pos, text);
        },
    }
}

/// The head of an array that was written is the one that is read.
pub proof fn lemma_array(s: Seq<u8>, pos: int, count: u64)
    requires
        holds_at(s, pos, head_bytes(MAJOR_ARRAY, count)),
    ensures
        array_at(s, pos) == Ok::<_, CborError>(
            (count, pos + head_bytes(MAJOR_ARRAY, count).len()),
        ),
        array_of_at(s, pos, count) == Ok::<_, CborError>(
            pos + head_bytes(MAJOR_ARRAY, count).len(),
        ),
{
    lemma_head(s, pos, MAJOR_ARRAY, count);
}

/// Texts that were written one after the other are the texts that are read.
pub proof fn lemma_texts(s: Seq<u8>, pos: int, l: Seq<Seq<char>>, acc: Seq<Seq<char>>)
    requires
        holds_at(s, pos, texts_bytes(l)),
        forall|i: int| 0 <= i < l.len() ==> text_fits(#[trigger] l[i]),
    ensures
        texts_at(s, pos, l.len(), acc) == Ok::<_, CborError>(
            (acc + l, pos + texts_bytes(l).len()),
        ),
    decreases l.len(),
{
    if l.len() == 0 {
        assert(acc + l =~= acc);
    } else {
        let rest = l.drop_first();
        lemma_holds_split(s, pos, text_bytes(l[0]), texts_bytes(rest));
        lemma_text(s, pos, l[0]);
        assert forall|i: int| 0 <= i < rest.len() implies text_fits(#[trigger] rest[i]) by {
            assert(rest[i] == l[i + 1]);
        }
        lemma_texts(s, pos + text_bytes(l[0]).len(), rest, acc.push(l[0]));
        assert(acc.push(l[0]) + rest =~= acc + l);
    }
}

/// A pair that was written is the pair that is read.
pub proof fn lemma_pair(s: Seq<u8>, pos: int, p: (Seq<char>, Seq<char>))
    requires
        holds_at(s, pos, pair_bytes(p)),
        pair_fits(p),
    ensures
        pair_at(s, pos) == Ok::<_, CborError>((p, pos + pair_bytes(p).len())),
{
    let h = head_bytes(MAJOR_ARRAY, 2);
    lemma_holds_split(s, pos, h + text_bytes(p.0), text_bytes(p.1));
    lemma_holds_split(s, pos, h, text_bytes(p.0));
    lemma_array(s, pos, 2);
    lemma_text(s, pos + h.len(), p.0);
    lemma_text(s, pos + h.len() + text_bytes(p.0).len(), p.1);
}

/// Pairs that were written one after the other are the pairs that are read.
pub proof fn lemma_pairs(
    s: Seq<u8>,
    pos: int,
    l: Seq<(Seq<char>, Seq<char>)>,
    acc: Seq<(Seq<char>, Seq<char>)>,
)
    requires
        holds_at(s, pos, pairs_bytes(l)),
        forall|i: int| 0 <= i < l.len() ==> pair_fits(#[trigger] l[i]),
    ensures
        pairs_at(s, pos, l.len(), acc) == Ok::<_, CborError>(
            (acc + l, pos + pairs_bytes(l).len()),
        ),
    decreases l.len(),
{
    if l.len() == 0 {
        assert(acc + l =~= acc);
    } else {
        let rest = l.drop_first();
        lemma_holds_split(s, pos, pair_bytes(l[0]), pairs_bytes(rest));
        lemma_pair(s, pos, l[0]);
        assert forall|i: int| 0 <= i < rest.len() implies pair_fits(#[trigger] rest[i]) by {
            assert(rest[i] == l[i + 1]);
        }
        lemma_pairs(s, pos + pair_bytes(l[0]).len(), rest, acc.push(l[0]));
        assert(acc.push(l[0]) + rest =~= acc + l);
    }
}

proof fn lemma_value_int(s: Seq<u8>, pos: int, ty: FieldType, v: FieldValue)
    requires
        holds_at(s, pos, value_bytes(v)),
        fits(ty, v),
        value_fits(v),
        v is Int,
    ensures
        value_at(s, pos, ty) == Ok::<_, CborError>((v, pos + value_bytes(v).len())),
{
    let n = v->Int_0;
    match ty {
        FieldType::U64 => lemma_uint(s, pos, n, u64::MAX),
        FieldType::U32 => lemma_uint(s, pos, n, u32::MAX as u64),
        FieldType::U16 => lemma_uint(s, pos, n, u16::MAX as u64),
        _ => lemma_i32(s, pos, n),
    }
}

proof fn lemma_value_text(s: Seq<u8>, pos: int, ty: FieldType, v: FieldValue)
    requires
        holds_at(s, pos, value_bytes(v)),
        fits(ty, v),
        value_fits(v),
        v is Text,
    ensures
        value_at(s, pos, ty) == Ok::<_, CborError>((v, pos + value_bytes(v).len())),
{
    lemma_text(s, pos, v->Text_0);
}

proof fn lemma_value_opt_text(s: Seq<u8>, pos: int, ty: FieldType, v: FieldValue)
    requires
        holds_at(s, pos, value_bytes(v)),
        fits(ty, v),
        value_fits(v),
        v is OptText,
    ensures
        value_at(s, pos, ty) == Ok::<_, CborError>((v, pos + value_bytes(v).len())),
{
    lemma_opt_text(s, pos, v->OptText_0);
}

proof fn lemma_value_bytes(s: Seq<u8>, pos: int, ty: FieldType, v: FieldValue)
    requires
        holds_at(s, pos, value_bytes(v)),
        fits(ty, v),
        value_fits(v),
        v is Bytes,
    ensures
        value_at(s, pos, ty) == Ok::<_, CborError>((v, pos + value_bytes(v).len())),
{
    lemma_blob(s, pos, MAJOR_BYTES, v->Bytes_0);
}

proof fn lemma_value_text_list(s: Seq<u8>, pos: int, ty: FieldType, v: FieldValue)
    requires
        holds_at(s, pos, value_bytes(v)),
        fits(ty, v),
        value_fits(v),
        v is TextList,
    ensures
        value_at(s, pos, ty) == Ok::<_, CborError>((v, pos + value_bytes(v).len())),
{
    let l = v->TextList_0;
    let h = head_bytes(MAJOR_ARRAY, l.len() as u64);
    lemma_holds_split(s, pos, h, texts_bytes(l));
    lemma_array(s, pos, l.len() as u64);
    lemma_texts(s, pos + h.len(), l, Seq::empty());
    assert(Seq::<Seq<char>>::empty() + l =~= l);
}

proof fn lemma_value_pair_list(s: Seq<u8>, pos: int, ty: FieldType, v: FieldValue)
    requires
        holds_at(s, pos, value_bytes(v)),
        fits(ty, v),
        value_fits(v),
        v is PairList,
    ensures
        value_at(s, pos, ty) == Ok::<_, CborError>((v, pos + value_bytes(v).len())),
{
    let l = v->PairList_0;
    let h = head_bytes(MAJOR_ARRAY, l.len() as u64);
    lemma_holds_split(s, pos, h, pairs_bytes(l));
    lemma_array(s, pos, l.len() as u64);
    lemma_pairs(s, pos + h.len(), l, Seq::empty());
    assert(Seq::<(Seq<char>, Seq<char>)>::empty() + l =~= l);
}

proof fn lemma_value_u64_pair(s: Seq<u8>, pos: int, ty: FieldType, v: FieldValue)
    requires
        holds_at(s, pos, value_bytes(v)),
        fits(ty, v),
        value_fits(v),
        v is U64Pair,
    ensures
        value_at(s, pos, ty) == Ok::<_, CborError>((v, pos + value_bytes(v).len())),
{
    let a = v->U64Pair_0;
    let b = v->U64Pair_1;
    let h = head_bytes(MAJOR_ARRAY, 2);
    lemma_holds_split(s, pos, h + int_bytes(a as int), int_bytes(b as int));
    lemma_holds_split(s, pos, h, int_bytes(a as int));
    lemma_array(s, pos, 2);
    lemma_uint(s, pos + h.len(), a as int, u64::MAX);
    lemma_uint(s, pos + h.len() + int_bytes(a as int).len(), b as int, u64::MAX);
}

/// A value that was written is the value that is read, whatever the type of
/// field it fits.
pub proof fn lemma_value(s: Seq<u8>, pos: int, ty: FieldType, v: FieldValue)
    requires
        holds_at(s, pos, value_bytes(v)),
        fits(ty, v),
        value_fits(v),
    ensures
        value_at(s, pos, ty) == Ok::<_, CborError>((v, pos + value_bytes(v).len())),
{
    match v {
        FieldValue::Int(_) => lemma_value_int(s, pos, ty, v),
        FieldValue::Text(_) => lemma_value_text(s, pos, ty, v),
        FieldValue::OptText(_) => lemma_value_opt_text(s, pos, ty, v),
        FieldValue::Bytes(_) => lemma_value_bytes(s, pos, ty, v),
        FieldValue::TextList(_) => lemma_value_text_list(s, pos, ty, v),
        FieldValue::PairList(_) => lemma_value_pair_list(s, pos, ty, v),
        FieldValue::U64Pair(_, _) => lemma_value_u64_pair(s, pos, ty, v),
    }
}

/// Fields that were written one after the other are the fields that are read.
pub proof fn lemma_fields(
    s: Seq<u8>,
    pos: int,
    fields: Seq<Field>,
    values: Seq<FieldValue>,
    i: int,
    acc: Seq<FieldValue>,
)
    requires
        holds_at(s, pos, fields_bytes(fields, values, i)),
        0 <= i <= fields.len(),
        all_fit(fields, values),
        forall|j: int| 0 <= j < fields.len() ==> text_fits(#[trigger] fields[j].name),
        forall|j: int| 0 <= j < values.len() ==> value_fits(#[trigger] values[j]),
    ensures
        fields_at(s, pos, fields, i, acc) == Ok::<_, CborError>(
            (acc + values.skip(i), pos + fields_bytes(fields, values, i).len()),
        ),
    decreases fields.len() - i,
{
    lemma_fields_step(s, pos, fields, i, acc);
    lemma_fields_bytes_step(fields, values, i);
    if i >= fields.len() {
        assert(acc + values.skip(i) =~= acc);
    } else {
        let name = text_bytes(fields[i].name);
        let value = value_bytes(values[i]);
        let rest = fields_bytes(fields, values, i + 1);
        lemma_holds_split(s, pos, name + value, rest);
        lemma_holds_split(s, pos, name, value);
        lemma_text(s, pos, fields[i].name);
        assert(fits(fields[i].ty, values[i]));
        lemma_value(s, pos + name.len(), fields[i].ty, values[i]);
        reveal(field_at);
        lemma_fields(s, pos + name.len() + value.len(), fields, values, i + 1, acc.push(values[i]));
        assert(acc.push(values[i]) + values.skip(i + 1) =~= acc + values.skip(i));
    }
}

/// The names of the fields and the tags are short enough to be written.
pub proof fn lemma_names_fit(kind: EventKind)
    ensures
        text_fits(tag_key()),
        text_fits(kind_tag(kind)),
        forall|j: int| 0 <= j < layout(kind).len() ==> text_fits(#[trigger] layout(kind)[j].name),
{
    lemma_names_short(kind);
    lemma_short_text_fits(tag_key());
    lemma_short_text_fits(kind_tag(kind));
    assert forall|j: int| 0 <= j < layout(kind).len() implies text_fits(
        #[trigger] layout(kind)[j].name,
    ) by {
        lemma_short_text_fits(layout(kind)[j].name);
    }
}

/// The UTF-8 form of a text has at most four bytes for each character.
pub proof fn lemma_utf8_len(t: Seq<char>)
    ensures
        utf8(t).len() <= 4 * t.len(),
    decreases t.len(),
{
    if t.len() > 0 {
        lemma_utf8_len(t.drop_first());
    }
}

proof fn lemma_short_text_fits(t: Seq<char>)
    requires
        t.len() <= 64,
    ensures
        text_fits(t),
{
    lemma_utf8_len(t);
}


/// The start of an event: the head of its map, the name of its tag and its tag.
pub open spec fn event_head_bytes(kind: EventKind) -> Seq<u8> {
    head_bytes(MAJOR_MAP, (layout(kind).len() + 1) as u64) + text_bytes(tag_key()) + text_bytes(
        kind_tag(kind),
    )
}

/// The start of an event that was written is the one that is read.
pub proof fn lemma_event_head(s: Seq<u8>, pos: int, kind: EventKind)
    requires
        holds_at(s, pos, event_head_bytes(kind)),
    ensures
        event_head_at(s, pos) == Ok::<_, CborError>((kind, pos + event_head_bytes(kind).len())),
        event_head_bytes(kind).len() >= 1,
{
    reveal(event_head_at);
    let count = (layout(kind).len() + 1) as u64;
    let h = head_bytes(MAJOR_MAP, count);
    let key = text_bytes(tag_key());
    let tag = text_bytes(kind_tag(kind));
    lemma_names_fit(kind);
    lemma_names_short(kind);
    lemma_tag_names_kind(kind);
    lemma_holds_split(s, pos, h + key, tag);
    lemma_holds_split(s, pos, h, key);
    lemma_head(s, pos, MAJOR_MAP, count);
    lemma_text(s, pos + h.len(), tag_key());
    lemma_blob(s, pos + h.len() + key.len(), MAJOR_TEXT, utf8(kind_tag(kind)));
}

/// An event that was written is the event that is read.
pub proof fn lemma_event(s: Seq<u8>, pos: int, e: EventModel)
    requires
        holds_at(s, pos, event_bytes(e)),
        event_fits(e),
    ensures
        event_at(s, pos) == Ok::<_, CborError>((e, pos + event_bytes(e).len())),
        event_bytes(e).len() >= 1,
{
    reveal(event_at);
    reveal(body_at);
    let kind = e.kind();
    let fields = layout(kind);
    let values = fields_of(e);
    let head = event_head_bytes(kind);
    let body = fields_bytes(fields, values, 0);
    assert(event_bytes(e) == head + body);
    lemma_holds_split(s, pos, head, body);
    lemma_event_head(s, pos, kind);
    lemma_names_fit(kind);
    lemma_fields_round_trip(e);
    lemma_fields(s, pos + head.len(), fields, values, 0, Seq::empty());
    assert(Seq::<FieldValue>::empty() + values.skip(0) =~= values);
}

/// A trace that was written, and behind which the bytes end or an event is
/// cut short, is the trace that is read.
pub proof fn lemma_trace(s: Seq<u8>, pos: int, events: Seq<EventModel>)
    requires
        holds_at(s, pos, trace_bytes(events)),
        event_at(s, pos + trace_bytes(events).len()) == Err::<(EventModel, int), _>(
            CborError::Truncated,
        ),
        trace_fits(events),
    ensures
        events_from(s, pos) == (events, false),
    decreases events.len(),
{
    if events.len() == 0 {
        assert(events =~= Seq::empty());
    } else {
        let rest = events.drop_first();
        lemma_holds_split(s, pos, event_bytes(events[0]), trace_bytes(rest));
        lemma_event(s, pos, events[0]);
        assert forall|i: int| 0 <= i < rest.len() implies event_fits(#[trigger] rest[i]) by {
            assert(rest[i] == events[i + 1]);
        }
        lemma_trace(s, pos + event_bytes(events[0]).len(), rest);
        assert(seq![events[0]] + rest =~= events);
    }
}

/// Where the bytes end no event is read: the bytes were cut short there.
pub proof fn lemma_end_is_truncated(s: Seq<u8>, pos: int)
    requires
        pos >= s.len(),
    ensures
        event_at(s, pos) == Err::<(EventModel, int), _>(CborError::Truncated),
{
    reveal(event_at);
    reveal(event_head_at);
}

/// Round trip of the binary encoding: reading what was written gives the
/// trace back, whole and with nothing corrupt behind it.
pub proof fn law_binary_round_trip(events: Seq<EventModel>)
    requires
        trace_fits(events),
    ensures
        events_from(trace_bytes(events), 0) == (events, false),
{
    let s = trace_bytes(events);
    assert(s.subrange(0, s.len() as int) =~= s);
    lemma_end_is_truncated(s, s.len() as int);
    lemma_trace(s, 0, events);
}


/// One more event behind the others is its bytes behind theirs.
pub proof fn lemma_trace_bytes_push(events: Seq<EventModel>, e: EventModel)
    ensures
        trace_bytes(events.push(e)) == trace_bytes(events) + event_bytes(e),
    decreases events.len(),
{
    if events.len() == 0 {
        assert(events.push(e).drop_first() =~= events);
        assert(trace_bytes(events.push(e)) =~= trace_bytes(events) + event_bytes(e));
    } else {
        assert(events.push(e).drop_first() =~= events.drop_first().push(e));
        lemma_trace_bytes_push(events.drop_first(), e);
        assert(trace_bytes(events.push(e)) =~= trace_bytes(events) + event_bytes(e));
    }
}

} // verus!
