//! A binary trace that was cut short: bytes that end in the middle of an
//! event hold the events before it, and nothing corrupt. That is what a
//! recording leaves when the process dies while an event is being written.

use super::cbor::{
    array_at, array_of_at, blob_at, blob_bytes, body_at, bytes_at, event_at, event_bytes,
    event_fits, event_head_at, event_head_bytes, events_from, field_at, fields_at, fields_bytes,
    head_at, head_bytes, i32_at, int_bytes, key_at, lemma_array, lemma_blob, lemma_event_head,
    lemma_fields_bytes_step, lemma_fields_step, lemma_head, lemma_names_fit, lemma_pair,
    lemma_text, lemma_trace, lemma_uint, lemma_value, opt_text_at, opt_text_bytes, pair_at,
    pair_bytes, pair_fits, pair_list_at, pairs_at, pairs_bytes, text_at, text_bytes, text_fits,
    text_list_at, texts_at, texts_bytes, trace_bytes, trace_fits, u64_pair_at, uint_at, value_at,
    value_bytes, value_fits, CborError, MAJOR_ARRAY, MAJOR_BYTES, MAJOR_MAP, MAJOR_NEGATIVE,
    MAJOR_TEXT, MAJOR_UINT, NULL_BYTE,
};
use super::event::{EventKind, EventModel};
use super::octets::{holds_at, lemma_holds_index, utf8};
use super::schema::{
    all_fit, fields_of, fits, kind_tag, layout, lemma_fields_round_trip, tag_key, Field, FieldType,
    FieldValue,
};
use vstd::prelude::*;

verus! {

/// True when the buffer ends inside the rendering `r` that starts at `pos`:
/// it holds a part of `r` from its start on, and not all of it.
pub open spec fn cut_at(s: Seq<u8>, pos: int, r: Seq<u8>) -> bool {
    &&& 0 <= pos <= s.len()
    &&& s.len() - pos < r.len()
    &&& s.subrange(pos, s.len() as int) == r.subrange(0, s.len() - pos)
}

/// A buffer that ends inside `a + b` ends inside `a`, or holds `a` and ends
/// inside `b`.
pub proof fn lemma_cut_split(s: Seq<u8>, pos: int, a: Seq<u8>, b: Seq<u8>)
    requires
        cut_at(s, pos, a + b),
    ensures
        cut_at(s, pos, a) || (holds_at(s, pos, a) && cut_at(s, pos + a.len(), b)),
{
    let k = s.len() - pos;
    let part = s.subrange(pos, s.len() as int);
    let whole = (a + b).subrange(0, k);
    if k < a.len() {
        assert(a.subrange(0, k) =~= whole);
    } else {
        assert forall|i: int| 0 <= i < a.len() implies s[pos + i] == a[i] by {
            assert(part[i] == whole[i]);
        }
        assert(s.subrange(pos, pos + a.len()) =~= a);
        assert forall|i: int| 0 <= i < k - a.len() implies s[pos + a.len() + i] == b[i] by {
            assert(part[a.len() + i] == whole[a.len() + i]);
        }
        assert(s.subrange(pos + a.len(), s.len() as int) =~= b.subrange(0, k - a.len()));
    }
}

/// The byte that a buffer holds at each place of a rendering it ends inside.
pub proof fn lemma_cut_index(s: Seq<u8>, pos: int, r: Seq<u8>, i: int)
    requires
        cut_at(s, pos, r),
        0 <= i < s.len() - pos,
    ensures
        s[pos + i] == r[i],
{
    assert(s.subrange(pos, s.len() as int)[i] == r.subrange(0, s.len() - pos)[i]);
}

/// A head that was cut short is read as truncated.
pub proof fn lemma_head_cut(s: Seq<u8>, pos: int, major: u8, arg: u64)
    requires
        cut_at(s, pos, head_bytes(major, arg)),
        major < 8,
    ensures
        head_at(s, pos) == Err::<(u8, u64, int), _>(CborError::Truncated),
{
    if s.len() - pos > 0 {
        lemma_cut_index(s, pos, head_bytes(major, arg), 0);
    }
}

/// An integer that was cut short is read as truncated.
pub proof fn lemma_int_cut(s: Seq<u8>, pos: int, n: int, max: u64)
    requires
        cut_at(s, pos, int_bytes(n)),
        i32::MIN <= n <= u64::MAX,
    ensures
        uint_at(s, pos, max) == Err::<(u64, int), _>(CborError::Truncated),
        i32_at(s, pos) == Err::<(i32, int), _>(CborError::Truncated),
{
    if n >= 0 {
        lemma_head_cut(s, pos, MAJOR_UINT, n as u64);
    } else {
        lemma_head_cut(s, pos, MAJOR_NEGATIVE, (-1 - n) as u64);
    }
}

/// A string that was cut short is read as truncated.
pub proof fn lemma_blob_cut(s: Seq<u8>, pos: int, major: u8, payload: Seq<u8>)
    requires
        cut_at(s, pos, blob_bytes(major, payload)),
        major < 8,
        payload.len() <= u64::MAX,
    ensures
        blob_at(s, pos, major) == Err::<(int, int), _>(CborError::Truncated),
{
    let head = head_bytes(major, payload.len() as u64);
    lemma_cut_split(s, pos, head, payload);
    if cut_at(s, pos, head) {
        lemma_head_cut(s, pos, major, payload.len() as u64);
    } else {
        lemma_head(s, pos, major, payload.len() as u64);
    }
}

/// A text that was cut short is read as truncated.
pub proof fn lemma_text_cut(s: Seq<u8>, pos: int, t: Seq<char>)
    requires
        cut_at(s, pos, text_bytes(t)),
        text_fits(t),
    ensures
        text_at(s, pos) == Err::<(Seq<char>, int), _>(CborError::Truncated),
        key_at(s, pos, t) == Err::<int, _>(CborError::Truncated),
        blob_at(s, pos, MAJOR_TEXT) == Err::<(int, int), _>(CborError::Truncated),
        pos < s.len() ==> s[pos] != NULL_BYTE,
{
    lemma_blob_cut(s, pos, MAJOR_TEXT, utf8(t));
    if pos < s.len() {
        lemma_cut_index(s, pos, text_bytes(t), 0);
    }
}

/// The head of an array that was cut short is read as truncated.
pub proof fn lemma_array_cut(s: Seq<u8>, pos: int, count: u64)
    requires
        cut_at(s, pos, head_bytes(MAJOR_ARRAY, count)),
    ensures
        array_at(s, pos) == Err::<(u64, int), _>(CborError::Truncated),
        array_of_at(s, pos, count) == Err::<int, _>(CborError::Truncated),
{
    lemma_head_cut(s, pos, MAJOR_ARRAY, count);
}

/// Texts that were cut short are read as truncated.
pub proof fn lemma_texts_cut(s: Seq<u8>, pos: int, l: Seq<Seq<char>>, acc: Seq<Seq<char>>)
    requires
        cut_at(s, pos, texts_bytes(l)),
        forall|i: int| 0 <= i < l.len() ==> text_fits(#[trigger] l[i]),
    ensures
        texts_at(s, pos, l.len(), acc) == Err::<(Seq<Seq<char>>, int), _>(CborError::Truncated),
    decreases l.len(),
{
    if l.len() > 0 {
        let rest = l.drop_first();
        lemma_cut_split(s, pos, text_bytes(l[0]), texts_bytes(rest));
        if cut_at(s, pos, text_bytes(l[0])) {
            lemma_text_cut(s, pos, l[0]);
        } else {
            lemma_text(s, pos, l[0]);
            assert forall|i: int| 0 <= i < rest.len() implies text_fits(#[trigger] rest[i]) by {
                assert(rest[i] == l[i + 1]);
            }
            lemma_texts_cut(s, pos + text_bytes(l[0]).len(), rest, acc.push(l[0]));
        }
    }
}

/// A pair that was cut short is read as truncated.
pub proof fn lemma_pair_cut(s: Seq<u8>, pos: int, p: (Seq<char>, Seq<char>))
    requires
        cut_at(s, pos, pair_bytes(p)),
        pair_fits(p),
    ensures
        pair_at(s, pos) == Err::<((Seq<char>, Seq<char>), int), _>(CborError::Truncated),
{
    let h = head_bytes(MAJOR_ARRAY, 2);
    lemma_cut_split(s, pos, h + text_bytes(p.0), text_bytes(p.1));
    if cut_at(s, pos, h + text_bytes(p.0)) {
        lemma_cut_split(s, pos, h, text_bytes(p.0));
        if cut_at(s, pos, h) {
            lemma_array_cut(s, pos, 2);
        } else {
            lemma_array(s, pos, 2);
            lemma_text_cut(s, pos + h.len(), p.0);
        }
    } else {
        super::octets::lemma_holds_split(s, pos, h, text_bytes(p.0));
        lemma_array(s, pos, 2);
        lemma_text(s, pos + h.len(), p.0);
        lemma_text_cut(s, pos + h.len() + text_bytes(p.0).len(), p.1);
    }
}

/// Pairs that were cut short are read as truncated.
pub proof fn lemma_pairs_cut(
    s: Seq<u8>,
    pos: int,
    l: Seq<(Seq<char>, Seq<char>)>,
    acc: Seq<(Seq<char>, Seq<char>)>,
)
    requires
        cut_at(s, pos, pairs_bytes(l)),
        forall|i: int| 0 <= i < l.len() ==> pair_fits(#[trigger] l[i]),
    ensures
        pairs_at(s, pos, l.len(), acc) == Err::<(Seq<(Seq<char>, Seq<char>)>, int), _>(
            CborError::Truncated,
        ),
    decreases l.len(),
{
    if l.len() > 0 {
        let rest = l.drop_first();
        lemma_cut_split(s, pos, pair_bytes(l[0]), pairs_bytes(rest));
        if cut_at(s, pos, pair_bytes(l[0])) {
            lemma_pair_cut(s, pos, l[0]);
        } else {
            lemma_pair(s, pos, l[0]);
            assert forall|i: int| 0 <= i < rest.len() implies pair_fits(#[trigger] rest[i]) by {
                assert(rest[i] == l[i + 1]);
            }
            lemma_pairs_cut(s, pos + pair_bytes(l[0]).len(), rest, acc.push(l[0]));
        }
    }
}

proof fn lemma_value_int_cut(s: Seq<u8>, pos: int, ty: FieldType, v: FieldValue)
    requires
        cut_at(s, pos, value_bytes(v)),
        fits(ty, v),
        v is Int,
    ensures
        value_at(s, pos, ty) == Err::<(FieldValue, int), _>(CborError::Truncated),
{
    lemma_int_cut(s, pos, v->Int_0, u64::MAX);
    lemma_int_cut(s, pos, v->Int_0, u32::MAX as u64);
    lemma_int_cut(s, pos, v->Int_0, u16::MAX as u64);
}

proof fn lemma_value_text_cut(s: Seq<u8>, pos: int, ty: FieldType, v: FieldValue)
    requires
        cut_at(s, pos, value_bytes(v)),
        fits(ty, v),
        value_fits(v),
        v is Text || v is OptText || v is Bytes,
    ensures
        value_at(s, pos, ty) == Err::<(FieldValue, int), _>(CborError::Truncated),
{
    match v {
        FieldValue::Text(t) => lemma_text_cut(s, pos, t),
        FieldValue::OptText(Some(t)) => lemma_text_cut(s, pos, t),
        FieldValue::OptText(None) => {
            assert(s.len() - pos == 0);
        },
        FieldValue::Bytes(b) => lemma_blob_cut(s, pos, MAJOR_BYTES, b),
        _ => {},
    }
}

proof fn lemma_value_list_cut(s: Seq<u8>, pos: int, ty: FieldType, v: FieldValue)
    requires
        cut_at(s, pos, value_bytes(v)),
        fits(ty, v),
        value_fits(v),
        v is TextList || v is PairList,
    ensures
        value_at(s, pos, ty) == Err::<(FieldValue, int), _>(CborError::Truncated),
{
    match v {
        FieldValue::TextList(l) => {
            let h = head_bytes(MAJOR_ARRAY, l.len() as u64);
            lemma_cut_split(s, pos, h, texts_bytes(l));
            if cut_at(s, pos, h) {
                lemma_array_cut(s, pos, l.len() as u64);
            } else {
                lemma_array(s, pos, l.len() as u64);
                lemma_texts_cut(s, pos + h.len(), l, Seq::empty());
            }
        },
        FieldValue::PairList(l) => {
            let h = head_bytes(MAJOR_ARRAY, l.len() as u64);
            lemma_cut_split(s, pos, h, pairs_bytes(l));
            if cut_at(s, pos, h) {
                lemma_array_cut(s, pos, l.len() as u64);
            } else {
                lemma_array(s, pos, l.len() as u64);
                lemma_pairs_cut(s, pos + h.len(), l, Seq::empty());
            }
        },
        _ => {},
    }
}

proof fn lemma_value_u64_pair_cut(s: Seq<u8>, pos: int, ty: FieldType, v: FieldValue)
    requires
        cut_at(s, pos, value_bytes(v)),
        fits(ty, v),
        v is U64Pair,
    ensures
        value_at(s, pos, ty) == Err::<(FieldValue, int), _>(CborError::Truncated),
{
    let a = v->U64Pair_0;
    let b = v->U64Pair_1;
    let h = head_bytes(MAJOR_ARRAY, 2);
    lemma_cut_split(s, pos, h + int_bytes(a as int), int_bytes(b as int));
    if cut_at(s, pos, h + int_bytes(a as int)) {
        lemma_cut_split(s, pos, h, int_bytes(a as int));
        if cut_at(s, pos, h) {
            lemma_array_cut(s, pos, 2);
        } else {
            lemma_array(s, pos, 2);
            lemma_int_cut(s, pos + h.len(), a as int, u64::MAX);
        }
    } else {
        super::octets::lemma_holds_split(s, pos, h, int_bytes(a as int));
        lemma_array(s, pos, 2);
        lemma_uint(s, pos + h.len(), a as int, u64::MAX);
        lemma_int_cut(s, pos + h.len() + int_bytes(a as int).len(), b as int, u64::MAX);
    }
}

/// A value that was cut short is read as truncated.
pub proof fn lemma_value_cut(s: Seq<u8>, pos: int, ty: FieldType, v: FieldValue)
    requires
        cut_at(s, pos, value_bytes(v)),
        fits(ty, v),
        value_fits(v),
    ensures
        value_at(s, pos, ty) == Err::<(FieldValue, int), _>(CborError::Truncated),
{
    match v {
        FieldValue::Int(_) => lemma_value_int_cut(s, pos, ty, v),
        FieldValue::Text(_) => lemma_value_text_cut(s, pos, ty, v),
        FieldValue::OptText(_) => lemma_value_text_cut(s, pos, ty, v),
        FieldValue::Bytes(_) => lemma_value_text_cut(s, pos, ty, v),
        FieldValue::TextList(_) => lemma_value_list_cut(s, pos, ty, v),
        FieldValue::PairList(_) => lemma_value_list_cut(s, pos, ty, v),
        FieldValue::U64Pair(_, _) => lemma_value_u64_pair_cut(s, pos, ty, v),
    }
}

/// Fields that were cut short are read as truncated.
pub proof fn lemma_fields_cut(
    s: Seq<u8>,
    pos: int,
    fields: Seq<Field>,
    values: Seq<FieldValue>,
    i: int,
    acc: Seq<FieldValue>,
)
    requires
        cut_at(s, pos, fields_bytes(fields, values, i)),
        0 <= i <= fields.len(),
        all_fit(fields, values),
        forall|j: int| 0 <= j < fields.len() ==> text_fits(#[trigger] fields[j].name),
        forall|j: int| 0 <= j < values.len() ==> value_fits(#[trigger] values[j]),
    ensures
        fields_at(s, pos, fields, i, acc) == Err::<(Seq<FieldValue>, int), _>(CborError::Truncated),
    decreases fields.len() - i,
{
    lemma_fields_step(s, pos, fields, i, acc);
    lemma_fields_bytes_step(fields, values, i);
    reveal(field_at);
    if i < fields.len() {
        let name = text_bytes(fields[i].name);
        let value = value_bytes(values[i]);
        let rest = fields_bytes(fields, values, i + 1);
        assert(fits(fields[i].ty, values[i]));
        lemma_cut_split(s, pos, name + value, rest);
        if cut_at(s, pos, name + value) {
            lemma_cut_split(s, pos, name, value);
            if cut_at(s, pos, name) {
                lemma_text_cut(s, pos, fields[i].name);
            } else {
                lemma_text(s, pos, fields[i].name);
                lemma_value_cut(s, pos + name.len(), fields[i].ty, values[i]);
            }
        } else {
            super::octets::lemma_holds_split(s, pos, name, value);
            lemma_text(s, pos, fields[i].name);
            lemma_value(s, pos + name.len(), fields[i].ty, values[i]);
            lemma_fields_cut(
                s,
                pos + name.len() + value.len(),
                fields,
                values,
                i + 1,
                acc.push(values[i]),
            );
        }
    }
}

/// The start of an event that was cut short is read as truncated.
pub proof fn lemma_event_head_cut(s: Seq<u8>, pos: int, kind: EventKind)
    requires
        cut_at(s, pos, event_head_bytes(kind)),
    ensures
        event_head_at(s, pos) == Err::<(EventKind, int), _>(CborError::Truncated),
{
    reveal(event_head_at);
    let count = (layout(kind).len() + 1) as u64;
    let h = head_bytes(MAJOR_MAP, count);
    let key = text_bytes(tag_key());
    let tag = text_bytes(kind_tag(kind));
    lemma_names_fit(kind);
    super::schema::lemma_names_short(kind);
    lemma_cut_split(s, pos, h + key, tag);
    if cut_at(s, pos, h + key) {
        lemma_cut_split(s, pos, h, key);
        if cut_at(s, pos, h) {
            lemma_head_cut(s, pos, MAJOR_MAP, count);
        } else {
            lemma_head(s, pos, MAJOR_MAP, count);
            lemma_text_cut(s, pos + h.len(), tag_key());
        }
    } else {
        super::octets::lemma_holds_split(s, pos, h, key);
        lemma_head(s, pos, MAJOR_MAP, count);
        lemma_text(s, pos + h.len(), tag_key());
        lemma_text_cut(s, pos + h.len() + key.len(), kind_tag(kind));
    }
}

/// An event that was cut short is read as truncated.
pub proof fn lemma_event_cut(s: Seq<u8>, pos: int, e: EventModel)
    requires
        cut_at(s, pos, event_bytes(e)),
        event_fits(e),
    ensures
        event_at(s, pos) == Err::<(EventModel, int), _>(CborError::Truncated),
{
    reveal(event_at);
    reveal(body_at);
    let kind = e.kind();
    let head = event_head_bytes(kind);
    let body = fields_bytes(layout(kind), fields_of(e), 0);
    lemma_names_fit(kind);
    lemma_fields_round_trip(e);
    lemma_cut_split(s, pos, head, body);
    if cut_at(s, pos, head) {
        lemma_event_head_cut(s, pos, kind);
    } else {
        lemma_event_head(s, pos, kind);
        lemma_fields_cut(s, pos + head.len(), layout(kind), fields_of(e), 0, Seq::empty());
    }
}

/// Crash safety of the binary encoding: a trace behind which an event was
/// written in part only is read as the events before it, with nothing corrupt
/// behind them.
pub proof fn law_binary_cut_short(events: Seq<EventModel>, e: EventModel, k: int)
    requires
        trace_fits(events),
        event_fits(e),
        0 <= k < event_bytes(e).len(),
    ensures
        events_from(trace_bytes(events) + event_bytes(e).subrange(0, k), 0) == (events, false),
{
    let whole = trace_bytes(events);
    let part = event_bytes(e).subrange(0, k);
    let s = whole + part;
    assert(s.subrange(0, whole.len() as int) =~= whole);
    assert(s.subrange(whole.len() as int, s.len() as int) =~= part);
    lemma_event_cut(s, whole.len() as int, e);
    lemma_trace(s, 0, events);
}

} // verus!
