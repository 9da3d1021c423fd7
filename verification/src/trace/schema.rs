//! The shape both encodings share: every event is a tag and a fixed list of
//! named fields. The text and the binary encoding differ only in how they
//! write a tag, a name and a value.

use super::event::{EventKind, EventModel};
use super::octets::range_is;
use vstd::prelude::*;
use vstd::utf8::{encode_utf8, encode_utf8_decode_utf8};

verus! {

/// What a field holds.
pub enum FieldType {
    U64,
    U32,
    U16,
    I32,
    Text,
    OptText,
    Bytes,
    TextList,
    PairList,
    U64Pair,
}

/// The value of one field.
pub enum FieldValue {
    Int(int),
    Text(Seq<char>),
    OptText(Option<Seq<char>>),
    Bytes(Seq<u8>),
    TextList(Seq<Seq<char>>),
    PairList(Seq<(Seq<char>, Seq<char>)>),
    U64Pair(u64, u64),
}

/// The name and type of one field.
pub struct Field {
    pub name: Seq<char>,
    pub ty: FieldType,
}

/// The name under which an event's tag is written.
pub open spec fn tag_key() -> Seq<char> {
    "call"@
}

/// The tag of each kind of event: its name in snake case.
pub open spec fn kind_tag(kind: EventKind) -> Seq<char> {
    match kind {
        EventKind::ClockNow => "clock_now"@,
        EventKind::ClockResolution => "clock_resolution"@,
        EventKind::MonotonicClockNow => "monotonic_clock_now"@,
        EventKind::MonotonicClockResolution => "monotonic_clock_resolution"@,
        EventKind::Environment => "environment"@,
        EventKind::Arguments => "arguments"@,
        EventKind::InitialCwd => "initial_cwd"@,
        EventKind::RandomBytes => "random_bytes"@,
        EventKind::InsecureRandomBytes => "insecure_random_bytes"@,
        EventKind::RandomU64 => "random_u64"@,
        EventKind::InsecureRandomU64 => "insecure_random_u64"@,
        EventKind::InsecureSeed => "insecure_seed"@,
        EventKind::Read => "read"@,
        EventKind::HttpResponse => "http_response"@,
        EventKind::Exit => "exit"@,
    }
}

/// The kind that a tag names, if any. The tag is given as it stands in a
/// file: as UTF-8 bytes.
pub open spec fn kind_of_tag(tag: Seq<u8>) -> Option<EventKind> {
    if tag == encode_utf8("clock_now"@) {
        Some(EventKind::ClockNow)
    } else if tag == encode_utf8("clock_resolution"@) {
        Some(EventKind::ClockResolution)
    } else if tag == encode_utf8("monotonic_clock_now"@) {
        Some(EventKind::MonotonicClockNow)
    } else if tag == encode_utf8("monotonic_clock_resolution"@) {
        Some(EventKind::MonotonicClockResolution)
    } else if tag == encode_utf8("environment"@) {
        Some(EventKind::Environment)
    } else if tag == encode_utf8("arguments"@) {
        Some(EventKind::Arguments)
    } else if tag == encode_utf8("initial_cwd"@) {
        Some(EventKind::InitialCwd)
    } else if tag == encode_utf8("random_bytes"@) {
        Some(EventKind::RandomBytes)
    } else if tag == encode_utf8("insecure_random_bytes"@) {
        Some(EventKind::InsecureRandomBytes)
    } else if tag == encode_utf8("random_u64"@) {
        Some(EventKind::RandomU64)
    } else if tag == encode_utf8("insecure_random_u64"@) {
        Some(EventKind::InsecureRandomU64)
    } else if tag == encode_utf8("insecure_seed"@) {
        Some(EventKind::InsecureSeed)
    } else if tag == encode_utf8("read"@) {
        Some(EventKind::Read)
    } else if tag == encode_utf8("http_response"@) {
        Some(EventKind::HttpResponse)
    } else if tag == encode_utf8("exit"@) {
        Some(EventKind::Exit)
    } else {
        None
    }
}

/// The fields of each kind of event, in the order in which they are written.
pub open spec fn layout(kind: EventKind) -> Seq<Field> {
    match kind {
        EventKind::ClockNow | EventKind::ClockResolution => seq![
            Field { name: "seconds"@, ty: FieldType::U64 },
            Field { name: "nanoseconds"@, ty: FieldType::U32 },
        ],
        EventKind::MonotonicClockNow | EventKind::MonotonicClockResolution => seq![
            Field { name: "nanoseconds"@, ty: FieldType::U64 },
        ],
        EventKind::Environment => seq![Field { name: "entries"@, ty: FieldType::PairList }],
        EventKind::Arguments => seq![Field { name: "args"@, ty: FieldType::TextList }],
        EventKind::InitialCwd => seq![Field { name: "path"@, ty: FieldType::OptText }],
        EventKind::RandomBytes | EventKind::InsecureRandomBytes => seq![
            Field { name: "bytes"@, ty: FieldType::Bytes },
        ],
        EventKind::RandomU64 | EventKind::InsecureRandomU64 => seq![
            Field { name: "value"@, ty: FieldType::U64 },
        ],
        EventKind::InsecureSeed => seq![Field { name: "seed"@, ty: FieldType::U64Pair }],
        EventKind::Read => seq![],
        EventKind::HttpResponse => seq![
            Field { name: "request_method"@, ty: FieldType::Text },
            Field { name: "request_url"@, ty: FieldType::Text },
            Field { name: "request_headers"@, ty: FieldType::PairList },
            Field { name: "status"@, ty: FieldType::U16 },
            Field { name: "headers"@, ty: FieldType::PairList },
            Field { name: "body"@, ty: FieldType::Bytes },
        ],
        EventKind::Exit => seq![Field { name: "code"@, ty: FieldType::I32 }],
    }
}

/// The values of an event's fields, in the order of its layout.
pub open spec fn fields_of(e: EventModel) -> Seq<FieldValue> {
    match e {
        EventModel::ClockNow { seconds, nanoseconds }
        | EventModel::ClockResolution { seconds, nanoseconds } => seq![
            FieldValue::Int(seconds as int),
            FieldValue::Int(nanoseconds as int),
        ],
        EventModel::MonotonicClockNow { nanoseconds }
        | EventModel::MonotonicClockResolution { nanoseconds } => seq![
            FieldValue::Int(nanoseconds as int),
        ],
        EventModel::Environment { entries } => seq![FieldValue::PairList(entries)],
        EventModel::Arguments { args } => seq![FieldValue::TextList(args)],
        EventModel::InitialCwd { path } => seq![FieldValue::OptText(path)],
        EventModel::RandomBytes { bytes } | EventModel::InsecureRandomBytes { bytes } => seq![
            FieldValue::Bytes(bytes),
        ],
        EventModel::RandomU64 { value } | EventModel::InsecureRandomU64 { value } => seq![
            FieldValue::Int(value as int),
        ],
        EventModel::InsecureSeed { seed } => seq![FieldValue::U64Pair(seed.0, seed.1)],
        EventModel::Read => seq![],
        EventModel::HttpResponse {
            request_method,
            request_url,
            request_headers,
            status,
            headers,
            body,
        } => seq![
            FieldValue::Text(request_method),
            FieldValue::Text(request_url),
            FieldValue::PairList(request_headers),
            FieldValue::Int(status as int),
            FieldValue::PairList(headers),
            FieldValue::Bytes(body),
        ],
        EventModel::Exit { code } => seq![FieldValue::Int(code as int)],
    }
}

/// The event of the given kind whose fields hold the given values.
pub open spec fn event_of(kind: EventKind, v: Seq<FieldValue>) -> EventModel {
    match kind {
        EventKind::ClockNow => EventModel::ClockNow {
            seconds: v[0]->Int_0 as u64,
            nanoseconds: v[1]->Int_0 as u32,
        },
        EventKind::ClockResolution => EventModel::ClockResolution {
            seconds: v[0]->Int_0 as u64,
            nanoseconds: v[1]->Int_0 as u32,
        },
        EventKind::MonotonicClockNow => EventModel::MonotonicClockNow {
            nanoseconds: v[0]->Int_0 as u64,
        },
        EventKind::MonotonicClockResolution => EventModel::MonotonicClockResolution {
            nanoseconds: v[0]->Int_0 as u64,
        },
        EventKind::Environment => EventModel::Environment { entries: v[0]->PairList_0 },
        EventKind::Arguments => EventModel::Arguments { args: v[0]->TextList_0 },
        EventKind::InitialCwd => EventModel::InitialCwd { path: v[0]->OptText_0 },
        EventKind::RandomBytes => EventModel::RandomBytes { bytes: v[0]->Bytes_0 },
        EventKind::InsecureRandomBytes => EventModel::InsecureRandomBytes {
            bytes: v[0]->Bytes_0,
        },
        EventKind::RandomU64 => EventModel::RandomU64 { value: v[0]->Int_0 as u64 },
        EventKind::InsecureRandomU64 => EventModel::InsecureRandomU64 {
            value: v[0]->Int_0 as u64,
        },
        EventKind::InsecureSeed => EventModel::InsecureSeed {
            seed: (v[0]->U64Pair_0, v[0]->U64Pair_1),
        },
        EventKind::Read => EventModel::Read,
        EventKind::HttpResponse => EventModel::HttpResponse {
            request_method: v[0]->Text_0,
            request_url: v[1]->Text_0,
            request_headers: v[2]->PairList_0,
            status: v[3]->Int_0 as u16,
            headers: v[4]->PairList_0,
            body: v[5]->Bytes_0,
        },
        EventKind::Exit => EventModel::Exit { code: v[0]->Int_0 as i32 },
    }
}

/// True when the value is one that a field of this type can hold.
pub open spec fn fits(ty: FieldType, v: FieldValue) -> bool {
    match ty {
        FieldType::U64 => v is Int && 0 <= v->Int_0 <= u64::MAX,
        FieldType::U32 => v is Int && 0 <= v->Int_0 <= u32::MAX,
        FieldType::U16 => v is Int && 0 <= v->Int_0 <= u16::MAX,
        FieldType::I32 => v is Int && i32::MIN <= v->Int_0 <= i32::MAX,
        FieldType::Text => v is Text,
        FieldType::OptText => v is OptText,
        FieldType::Bytes => v is Bytes,
        FieldType::TextList => v is TextList,
        FieldType::PairList => v is PairList,
        FieldType::U64Pair => v is U64Pair,
    }
}

/// True when the values are, one for one, values of the fields.
pub open spec fn all_fit(fields: Seq<Field>, values: Seq<FieldValue>) -> bool {
    &&& fields.len() == values.len()
    &&& forall|i: int| 0 <= i < fields.len() ==> fits(#[trigger] fields[i].ty, values[i])
}

/// The tag of each kind of event.
pub fn tag_of(kind: EventKind) -> (r: &'static str)
    ensures
        r@ == kind_tag(kind),
{
    match kind {
        EventKind::ClockNow => "clock_now",
        EventKind::ClockResolution => "clock_resolution",
        EventKind::MonotonicClockNow => "monotonic_clock_now",
        EventKind::MonotonicClockResolution => "monotonic_clock_resolution",
        EventKind::Environment => "environment",
        EventKind::Arguments => "arguments",
        EventKind::InitialCwd => "initial_cwd",
        EventKind::RandomBytes => "random_bytes",
        EventKind::InsecureRandomBytes => "insecure_random_bytes",
        EventKind::RandomU64 => "random_u64",
        EventKind::InsecureRandomU64 => "insecure_random_u64",
        EventKind::InsecureSeed => "insecure_seed",
        EventKind::Read => "read",
        EventKind::HttpResponse => "http_response",
        EventKind::Exit => "exit",
    }
}

/// The kind that the tag held by the buffer from `start` to `end` names, if any.
pub fn kind_from_tag(buf: &[u8], start: usize, end: usize) -> (r: Option<EventKind>)
    requires
        start <= end <= buf.len(),
    ensures
        r == kind_of_tag(buf@.subrange(start as int, end as int)),
{
    if range_is(buf, start, end, "clock_now") {
        Some(EventKind::ClockNow)
    }     else if range_is(buf, start, end, "clock_resolution") {
        Some(EventKind::ClockResolution)
    }     else if range_is(buf, start, end, "monotonic_clock_now") {
        Some(EventKind::MonotonicClockNow)
    }     else if range_is(buf, start, end, "monotonic_clock_resolution") {
        Some(EventKind::MonotonicClockResolution)
    }     else if range_is(buf, start, end, "environment") {
        Some(EventKind::Environment)
    }     else if range_is(buf, start, end, "arguments") {
        Some(EventKind::Arguments)
    }     else if range_is(buf, start, end, "initial_cwd") {
        Some(EventKind::InitialCwd)
    }     else if range_is(buf, start, end, "random_bytes") {
        Some(EventKind::RandomBytes)
    }     else if range_is(buf, start, end, "insecure_random_bytes") {
        Some(EventKind::InsecureRandomBytes)
    }     else if range_is(buf, start, end, "random_u64") {
        Some(EventKind::RandomU64)
    }     else if range_is(buf, start, end, "insecure_random_u64") {
        Some(EventKind::InsecureRandomU64)
    }     else if range_is(buf, start, end, "insecure_seed") {
        Some(EventKind::InsecureSeed)
    }     else if range_is(buf, start, end, "read") {
        Some(EventKind::Read)
    }     else if range_is(buf, start, end, "http_response") {
        Some(EventKind::HttpResponse)
    }     else if range_is(buf, start, end, "exit") {
        Some(EventKind::Exit)
    } else {
        None
    }
}

/// How many fields an event of the given kind has.
pub fn field_count(kind: EventKind) -> (r: u64)
    ensures
        r == layout(kind).len(),
{
    match kind {
        EventKind::ClockNow | EventKind::ClockResolution => 2,
        EventKind::Read => 0,
        EventKind::HttpResponse => 6,
        _ => 1,
    }
}

/// Every tag names the kind it was made for: no two kinds share a tag.
pub proof fn lemma_tag_names_kind(kind: EventKind)
    ensures
        kind_of_tag(encode_utf8(kind_tag(kind))) == Some(kind),
{
    reveal_strlit("clock_now");
    reveal_strlit("clock_resolution");
    reveal_strlit("monotonic_clock_now");
    reveal_strlit("monotonic_clock_resolution");
    reveal_strlit("environment");
    reveal_strlit("arguments");
    reveal_strlit("initial_cwd");
    reveal_strlit("random_bytes");
    reveal_strlit("insecure_random_bytes");
    reveal_strlit("random_u64");
    reveal_strlit("insecure_random_u64");
    reveal_strlit("insecure_seed");
    reveal_strlit("read");
    reveal_strlit("http_response");
    reveal_strlit("exit");
    encode_utf8_decode_utf8("clock_now"@);
    encode_utf8_decode_utf8("clock_resolution"@);
    encode_utf8_decode_utf8("monotonic_clock_now"@);
    encode_utf8_decode_utf8("monotonic_clock_resolution"@);
    encode_utf8_decode_utf8("environment"@);
    encode_utf8_decode_utf8("arguments"@);
    encode_utf8_decode_utf8("initial_cwd"@);
    encode_utf8_decode_utf8("random_bytes"@);
    encode_utf8_decode_utf8("insecure_random_bytes"@);
    encode_utf8_decode_utf8("random_u64"@);
    encode_utf8_decode_utf8("insecure_random_u64"@);
    encode_utf8_decode_utf8("insecure_seed"@);
    encode_utf8_decode_utf8("read"@);
    encode_utf8_decode_utf8("http_response"@);
    encode_utf8_decode_utf8("exit"@);
    assert(kind_tag(kind).len() > 0);
}

/// No tag and no name of a field has more than 64 characters.
pub proof fn lemma_names_short(kind: EventKind)
    ensures
        tag_key().len() <= 64,
        kind_tag(kind).len() <= 64,
        layout(kind).len() <= 6,
        forall|j: int| 0 <= j < layout(kind).len() ==> (#[trigger] layout(kind)[j]).name.len() <= 64,
{
    reveal_strlit("call");
    reveal_strlit("seconds");
    reveal_strlit("nanoseconds");
    reveal_strlit("entries");
    reveal_strlit("args");
    reveal_strlit("path");
    reveal_strlit("bytes");
    reveal_strlit("value");
    reveal_strlit("seed");
    reveal_strlit("request_method");
    reveal_strlit("request_url");
    reveal_strlit("request_headers");
    reveal_strlit("status");
    reveal_strlit("headers");
    reveal_strlit("body");
    reveal_strlit("code");
    reveal_strlit("clock_now");
    reveal_strlit("clock_resolution");
    reveal_strlit("monotonic_clock_now");
    reveal_strlit("monotonic_clock_resolution");
    reveal_strlit("environment");
    reveal_strlit("arguments");
    reveal_strlit("initial_cwd");
    reveal_strlit("random_bytes");
    reveal_strlit("insecure_random_bytes");
    reveal_strlit("random_u64");
    reveal_strlit("insecure_random_u64");
    reveal_strlit("insecure_seed");
    reveal_strlit("read");
    reveal_strlit("http_response");
    reveal_strlit("exit");
}

/// An event is the event of its kind that holds its own field values, and
/// those values fit its layout.
pub proof fn lemma_fields_round_trip(e: EventModel)
    ensures
        event_of(e.kind(), fields_of(e)) == e,
        all_fit(layout(e.kind()), fields_of(e)),
{
}

} // verus!
