//! HTTP headers as they stand in a trace: pairs of a name and a value, both
//! text, sorted by name and then by value, so that the headers of a replayed
//! request can be held against those of the recorded one.

use crate::trace::octets::{string_from_utf8, utf8};
use crate::trace::order::{insert_sorted, law_sorted_is_unique, sorted};
use vstd::prelude::*;
use vstd::utf8::{decode_utf8, partial_valid_utf8_extend_ascii_block, valid_utf8};

verus! {

/// Why headers could not be brought into, or out of, their recorded form.
#[derive(Debug, Clone, PartialEq, Eq)]
pub enum HeaderError {
    /// The value of the header of the given name is no visible text.
    InvalidValue { name: String },
    /// The given name is no header name.
    InvalidName { name: String },
    /// There are more headers than a header map holds.
    TooMany,
}

/// True for the bytes of visible text: the printable ASCII characters and
/// the tab.
pub open spec fn is_visible(b: u8) -> bool {
    (32 <= b && b < 127) || b == 9
}

/// True when every byte is one of visible text.
pub open spec fn all_visible(bytes: Seq<u8>) -> bool {
    forall|i: int| 0 <= i < bytes.len() ==> is_visible(#[trigger] bytes[i])
}

/// The text of a header value, where its bytes are visible text.
pub fn visible_text(bytes: &Vec<u8>) -> (r: Option<String>)
    ensures
        r is Some <==> all_visible(bytes@),
        r matches Some(t) ==> t@ == decode_utf8(bytes@) && utf8(t@) == bytes@,
{
    let mut i: usize = 0;
    while i < bytes.len()
        invariant
            i <= bytes.len(),
            forall|j: int| 0 <= j < i ==> is_visible(#[trigger] bytes@[j]),
        decreases bytes.len() - i,
    {
        let b = bytes[i];
        if !((32 <= b && b < 127) || b == 9) {
            return None;
        }
        i += 1;
    }
    proof {
        assert(bytes@.subrange(0, 0) =~= Seq::<u8>::empty());
        assert(valid_utf8(Seq::<u8>::empty()));
        partial_valid_utf8_extend_ascii_block(bytes@, 0, bytes@.len() as int);
        assert(bytes@.subrange(0, bytes@.len() as int) =~= bytes@);
        vstd::utf8::decode_utf8_encode_utf8(bytes@);
    }
    string_from_utf8(bytes.clone())
}


/// The raw form of pairs: each value as its UTF-8 bytes.
pub open spec fn raw_of(pairs: Seq<(Seq<char>, Seq<char>)>) -> Seq<(Seq<char>, Seq<u8>)> {
    Seq::new(pairs.len(), |i: int| (pairs[i].0, utf8(pairs[i].1)))
}

/// A pair stands in a list as often as its raw form stands in the raw form
/// of the list: two texts with the same bytes are one text.
pub proof fn lemma_raw_count(pairs: Seq<(Seq<char>, Seq<char>)>, pair: (Seq<char>, Seq<char>))
    ensures
        pairs.to_multiset().count(pair) == raw_of(pairs).to_multiset().count(
            (pair.0, utf8(pair.1)),
        ),
    decreases pairs.len(),
{
    broadcast use vstd::multiset::group_multiset_axioms;

    let raw = (pair.0, utf8(pair.1));
    if pairs.len() == 0 {
        assert(raw_of(pairs) =~= Seq::empty());
        assert(pairs =~= Seq::empty());
        vstd::seq_lib::to_multiset_len(pairs);
        vstd::seq_lib::to_multiset_len(raw_of(pairs));
        assert(pairs.to_multiset().count(pair) == 0);
        assert(raw_of(pairs).to_multiset().count(raw) == 0);
    } else {
        let front = pairs.drop_last();
        let last = pairs.last();
        let raw_last = (last.0, utf8(last.1));
        lemma_raw_count(front, pair);
        assert(pairs =~= front.push(last));
        assert(raw_of(pairs) =~= raw_of(front).push(raw_last));
        vstd::seq_lib::to_multiset_build(front, last);
        vstd::seq_lib::to_multiset_build(raw_of(front), raw_last);
        vstd::utf8::encode_utf8_decode_utf8(last.1);
        vstd::utf8::encode_utf8_decode_utf8(pair.1);
        assert(utf8(last.1) == utf8(pair.1) ==> last.1 == pair.1);
        assert((raw_last == raw) == (last == pair));
        assert(pairs.to_multiset() == front.to_multiset().insert(last));
        assert(raw_of(pairs).to_multiset() == raw_of(front).to_multiset().insert(raw_last));
    }
}

/// Headers have one recorded form: sorted pairs whose raw forms hold the
/// same headers, each as often, are the same list.
pub proof fn law_recorded_form_is_unique(
    x: Seq<(Seq<char>, Seq<char>)>,
    y: Seq<(Seq<char>, Seq<char>)>,
)
    requires
        sorted(x),
        sorted(y),
        raw_of(x).to_multiset() == raw_of(y).to_multiset(),
    ensures
        x == y,
{
    assert forall|pair: (Seq<char>, Seq<char>)|
        x.to_multiset().count(pair) == y.to_multiset().count(pair) by {
        lemma_raw_count(x, pair);
        lemma_raw_count(y, pair);
    }
    assert(x.to_multiset() =~= y.to_multiset());
    law_sorted_is_unique(x, y);
}

/// The first header from `from` on whose value is no visible text, if there
/// is one.
pub open spec fn first_invisible(raw: Seq<(Seq<char>, Seq<u8>)>, from: int) -> Option<int>
    decreases raw.len() - from,
{
    if from < 0 || from >= raw.len() {
        None
    } else if !all_visible(raw[from].1) {
        Some(from)
    } else {
        first_invisible(raw, from + 1)
    }
}

/// The first header whose value is no visible text is one, and the values
/// before it are visible text.
pub proof fn lemma_first_invisible(raw: Seq<(Seq<char>, Seq<u8>)>, from: int)
    requires
        0 <= from,
    ensures
        match first_invisible(raw, from) {
            Some(i) => from <= i < raw.len() && !all_visible(raw[i].1),
            None => forall|j: int| from <= j < raw.len() ==> all_visible(#[trigger] raw[j].1),
        },
    decreases raw.len() - from,
{
    if from < raw.len() && all_visible(raw[from].1) {
        lemma_first_invisible(raw, from + 1);
    }
}

/// The headers in their recorded form: every value as text, the pairs sorted
/// by name and value. The first value that is no visible text is refused.
pub fn sorted_pairs(raw: &Vec<(String, Vec<u8>)>) -> (r: Result<Vec<(String, String)>, HeaderError>)
    ensures
        match first_invisible(raw.deep_view(), 0) {
            Some(i) => r matches Err(HeaderError::InvalidValue { name }) && name@
                == raw.deep_view()[i].0,
            None => r matches Ok(pairs) && sorted(pairs.deep_view()) && raw_of(
                pairs.deep_view(),
            ).to_multiset() == raw.deep_view().to_multiset(),
        },
{
    let ghost items = raw.deep_view();
    let mut out: Vec<(String, String)> = Vec::new();
    let mut i: usize = 0;
    assert(raw_of(out.deep_view()) =~= items.take(0));
    while i < raw.len()
        invariant
            i <= raw.len(),
            items == raw.deep_view(),
            first_invisible(items, 0) == first_invisible(items, i as int),
            sorted(out.deep_view()),
            raw_of(out.deep_view()).to_multiset() == items.take(i as int).to_multiset(),
        decreases raw.len() - i,
    {
        assert(items[i as int] == (raw[i as int].0@, raw[i as int].1@));
        match visible_text(&raw[i].1) {
            None => {
                return Err(HeaderError::InvalidValue { name: raw[i].0.clone() });
            },
            Some(value) => {
                let name = raw[i].0.clone();
                let ghost before = out.deep_view();
                let ghost model = (name@, value@);
                let k = insert_sorted(&mut out, (name, value));
                proof {
                    assert(raw_of(out.deep_view()) =~= raw_of(before).insert(
                        k as int,
                        items[i as int],
                    ));
                    vstd::seq_lib::to_multiset_insert(raw_of(before), k as int, items[i as int]);
                    assert(items.take(i + 1) =~= items.take(i as int).push(items[i as int]));
                    vstd::seq_lib::to_multiset_build(items.take(i as int), items[i as int]);
                }
            },
        }
        i += 1;
    }
    assert(items.take(i as int) =~= items);
    Ok(out)
}

/// True for the bytes a header name is made of: the letters, the digits and
/// the marks `! # $ % & ' * + - . ^ _ ` | ~`.
pub open spec fn is_name_byte(b: u8) -> bool {
    (0x30 <= b <= 0x39) || (0x41 <= b <= 0x5a) || (0x61 <= b <= 0x7a) || b == 0x21 || (0x23 <= b
        <= 0x27) || b == 0x2a || b == 0x2b || b == 0x2d || b == 0x2e || b == 0x5e || b == 0x5f || b
        == 0x60 || b == 0x7c || b == 0x7e
}

/// The longest a header name can be.
pub const MAX_NAME_LEN: usize = 65535;

/// True when the bytes are a header name.
pub open spec fn is_header_name(name: Seq<u8>) -> bool {
    1 <= name.len() <= MAX_NAME_LEN && forall|i: int|
        0 <= i < name.len() ==> is_name_byte(#[trigger] name[i])
}

/// A name with its upper-case letters made lower case.
pub open spec fn lowered(name: Seq<u8>) -> Seq<u8> {
    Seq::new(
        name.len(),
        |i: int|
            if 0x41 <= name[i] <= 0x5a {
                (name[i] + 32) as u8
            } else {
                name[i]
            },
    )
}

/// True for the bytes a header value is made of: every byte but the control
/// characters, and the tab.
pub open spec fn is_value_byte(b: u8) -> bool {
    (b >= 32 && b != 127) || b == 9
}

/// True when the bytes are a header value.
pub open spec fn is_header_value(value: Seq<u8>) -> bool {
    forall|i: int| 0 <= i < value.len() ==> is_value_byte(#[trigger] value[i])
}

/// The entry that a map holds for a pair: the name in lower case and the
/// bytes of the value.
pub open spec fn entry_of(pair: (Seq<char>, Seq<char>)) -> (Seq<char>, Seq<u8>) {
    (decode_utf8(lowered(utf8(pair.0))), utf8(pair.1))
}

/// `HeaderMap` of the `http` crate, as hyper hands it on: a value that is
/// carried through; nothing is known of what is inside but what
/// [`header_entries`] names.
#[verifier::external_type_specification]
#[verifier::external_body]
#[verifier::reject_recursive_types(T)]
pub struct ExHeaderMap<T>(hyper::HeaderMap<T>);

/// `HeaderValue` of the `http` crate: the type of the values of a header
/// map. Nothing is known of what is inside.
#[verifier::external_type_specification]
#[verifier::external_body]
pub struct ExHeaderValue(hyper::header::HeaderValue);

/// True when the name holds no upper-case letter.
pub open spec fn no_upper(name: Seq<char>) -> bool {
    forall|i: int| 0 <= i < name.len() ==> !('A' <= #[trigger] name[i] <= 'Z')
}

/// The number of headers below which a map never refuses one more. A map
/// refuses a header only where its table of 32768 slots would have to grow;
/// the table is asked to grow at the earliest when it holds a fifth of that
/// many names.
pub const MAP_ROOM: usize = 6554;

/// The headers that a map holds, in the order in which it hands them out:
/// for each, its name and the bytes of its value. The values of one name
/// stand together, in the order in which they were added, where the name
/// was added first.
pub uninterp spec fn header_entries(map: hyper::HeaderMap) -> Seq<(Seq<char>, Seq<u8>)>;

/// The place of the last entry of the given name, or -1 where there is none.
pub open spec fn last_named(entries: Seq<(Seq<char>, Seq<u8>)>, name: Seq<char>) -> int
    decreases entries.len(),
{
    if entries.len() == 0 {
        -1
    } else if entries.last().0 == name {
        entries.len() - 1
    } else {
        last_named(entries.drop_last(), name)
    }
}

/// The entries with one more: behind the last entry of its name, or behind
/// all of them where its name is new.
pub open spec fn with_entry(entries: Seq<(Seq<char>, Seq<u8>)>, e: (Seq<char>, Seq<u8>)) -> Seq<
    (Seq<char>, Seq<u8>),
> {
    let k = last_named(entries, e.0);
    if k < 0 {
        entries.push(e)
    } else {
        entries.insert(k + 1, e)
    }
}

/// The entries as a map hands them out once they were added to an empty map
/// one after the other: the values of a name stand together.
pub open spec fn grouped(entries: Seq<(Seq<char>, Seq<u8>)>) -> Seq<(Seq<char>, Seq<u8>)>
    decreases entries.len(),
{
    if entries.len() == 0 {
        Seq::empty()
    } else {
        with_entry(grouped(entries.drop_last()), entries.last())
    }
}

/// The last entry of a name stands within the entries, if there is one.
pub proof fn lemma_last_named(entries: Seq<(Seq<char>, Seq<u8>)>, name: Seq<char>)
    ensures
        -1 <= last_named(entries, name) < entries.len(),
    decreases entries.len(),
{
    if entries.len() > 0 && entries.last().0 != name {
        lemma_last_named(entries.drop_last(), name);
    }
}

/// One more entry is one more entry: the others stay, and it is among them.
pub proof fn lemma_with_entry(entries: Seq<(Seq<char>, Seq<u8>)>, e: (Seq<char>, Seq<u8>))
    ensures
        with_entry(entries, e).len() == entries.len() + 1,
        with_entry(entries, e).to_multiset() == entries.to_multiset().insert(e),
{
    lemma_last_named(entries, e.0);
    let k = last_named(entries, e.0);
    if k < 0 {
        vstd::seq_lib::to_multiset_build(entries, e);
    } else {
        vstd::seq_lib::to_multiset_insert(entries, k + 1, e);
    }
}

/// Grouping keeps the entries: as many as before, each as often.
pub proof fn lemma_grouped(entries: Seq<(Seq<char>, Seq<u8>)>)
    ensures
        grouped(entries).len() == entries.len(),
        grouped(entries).to_multiset() == entries.to_multiset(),
    decreases entries.len(),
{
    if entries.len() > 0 {
        lemma_grouped(entries.drop_last());
        lemma_with_entry(grouped(entries.drop_last()), entries.last());
        assert(entries =~= entries.drop_last().push(entries.last()));
        vstd::seq_lib::to_multiset_build(entries.drop_last(), entries.last());
        assert(grouped(entries).to_multiset() =~= entries.to_multiset());
    } else {
        assert(entries =~= Seq::empty());
    }
}

/// `HeaderMap::new` of the `http` crate, as hyper hands it on: a map that
/// holds no header.
#[verifier::external_body]
fn new_header_map() -> (r: hyper::HeaderMap)
    ensures
        header_entries(r) == Seq::<(Seq<char>, Seq<u8>)>::empty(),
{
    hyper::HeaderMap::new()
}

/// `HeaderMap::iter`: every header that the map holds, once for each of its
/// values, in the order in which the map hands them out. A `HeaderName` is
/// always lower case.
#[verifier::external_body]
fn header_pairs(map: &hyper::HeaderMap) -> (r: Vec<(String, Vec<u8>)>)
    ensures
        r.deep_view() == header_entries(*map),
        forall|i: int| 0 <= i < r.len() ==> no_upper(#[trigger] r[i].0@),
{
    map.iter().map(|(name, value)| (name.as_str().to_string(), value.as_bytes().to_vec())).collect()
}

/// `HeaderName::from_bytes`: accepts the names that are made of name bytes
/// and are neither empty nor longer than 65535 bytes; the name it gives is
/// the one it was given, in lower case.
#[verifier::external_body]
fn header_name_of(name: &str) -> (r: Option<String>)
    ensures
        r is Some <==> is_header_name(utf8(name@)),
        r matches Some(n) ==> utf8(n@) == lowered(utf8(name@)),
{
    hyper::header::HeaderName::from_bytes(name.as_bytes()).ok().map(|n| n.as_str().to_string())
}

/// `HeaderValue::from_str`: accepts the values that hold no control
/// character but the tab.
#[verifier::external_body]
fn header_value_ok(value: &str) -> (r: bool)
    ensures
        r == is_header_value(utf8(value@)),
{
    hyper::header::HeaderValue::from_str(value).is_ok()
}

/// `HeaderMap::try_append`: adds a header to those that the map holds,
/// behind the other values of its name, or leaves the map as it is where it
/// cannot hold one more. A map that holds fewer than [`MAP_ROOM`] headers can
/// always hold one more.
#[verifier::external_body]
fn append_header(map: &mut hyper::HeaderMap, name: &str, value: &str) -> (r: bool)
    requires
        is_header_name(utf8(name@)),
        is_header_value(utf8(value@)),
    ensures
        r ==> header_entries(*final(map)) == with_entry(
            header_entries(*old(map)),
            entry_of((name@, value@)),
        ),
        !r ==> header_entries(*final(map)) == header_entries(*old(map)),
        header_entries(*old(map)).len() < MAP_ROOM ==> r,
{
    let name = hyper::header::HeaderName::from_bytes(name.as_bytes()).unwrap();
    let value = hyper::header::HeaderValue::from_str(value).unwrap();
    map.try_append(name, value).is_ok()
}

/// The headers of a map in their recorded form: every name in lower case,
/// every value as text, the pairs sorted by name and value. They are refused
/// where the value of one of them is no visible text; the error names the
/// first such header that the map hands out.
pub fn sorted_headers(headers: &hyper::HeaderMap) -> (r: Result<
    Vec<(String, String)>,
    HeaderError,
>)
    ensures
        match first_invisible(header_entries(*headers), 0) {
            Some(i) => r matches Err(HeaderError::InvalidValue { name }) && name@
                == header_entries(*headers)[i].0,
            None => {
                &&& r matches Ok(pairs)
                &&& sorted(pairs.deep_view())
                &&& raw_of(pairs.deep_view()).to_multiset() == header_entries(
                    *headers,
                ).to_multiset()
                &&& forall|i: int|
                    0 <= i < pairs.deep_view().len() ==> no_upper(#[trigger] pairs.deep_view()[i].0)
            },
        },
{
    let raw = header_pairs(headers);
    let ghost items = raw.deep_view();
    let r = sorted_pairs(&raw);
    proof {
        if r is Ok {
            let pairs = r->Ok_0;
            let found = raw_of(pairs.deep_view());
            assert forall|i: int| 0 <= i < pairs.deep_view().len() implies no_upper(
                #[trigger] pairs.deep_view()[i].0,
            ) by {
                assert(found.contains(found[i]));
                vstd::seq_lib::to_multiset_contains(found, found[i]);
                vstd::seq_lib::to_multiset_contains(items, found[i]);
                assert(found.to_multiset() == items.to_multiset());
                assert(items.contains(found[i]));
                let j = choose|j: int| 0 <= j < items.len() && items[j] == found[i];
                assert(items[j].0 == raw[j].0@);
            }
        }
    }
    r
}

/// The first pair from `from` on that is no header: the place of the pair,
/// and whether it is its name that is none.
pub open spec fn first_unfit(pairs: Seq<(Seq<char>, Seq<char>)>, from: int) -> Option<(int, bool)>
    decreases pairs.len() - from,
{
    if from < 0 || from >= pairs.len() {
        None
    } else if !is_header_name(utf8(pairs[from].0)) {
        Some((from, true))
    } else if !is_header_value(utf8(pairs[from].1)) {
        Some((from, false))
    } else {
        first_unfit(pairs, from + 1)
    }
}

/// The entries that a map holds for pairs.
pub open spec fn entries_of(pairs: Seq<(Seq<char>, Seq<char>)>) -> Seq<(Seq<char>, Seq<u8>)> {
    Seq::new(pairs.len(), |i: int| entry_of(pairs[i]))
}

/// The header map that holds the given pairs, added one after the other:
/// the values of a name stand together in the order of the pairs. The first
/// pair whose name or value is none is refused. Fewer than [`MAP_ROOM`]
/// pairs that are all headers always give a map; a map that is asked to hold
/// more may refuse.
pub fn header_map_from_pairs(pairs: &Vec<(String, String)>) -> (r: Result<
    hyper::HeaderMap,
    HeaderError,
>)
    ensures
        match r {
            Ok(map) => first_unfit(pairs.deep_view(), 0) is None && header_entries(map)
                == grouped(entries_of(pairs.deep_view())),
            Err(HeaderError::InvalidName { name }) => first_unfit(pairs.deep_view(), 0) matches Some(
                (i, true),
            ) && name@ == pairs.deep_view()[i].0,
            Err(HeaderError::InvalidValue { name }) => first_unfit(
                pairs.deep_view(),
                0,
            ) matches Some((i, false)) && name@ == pairs.deep_view()[i].0,
            Err(HeaderError::TooMany) => pairs.len() >= MAP_ROOM,
        },
        first_unfit(pairs.deep_view(), 0) is None && pairs.len() < MAP_ROOM ==> r is Ok,
{
    let ghost items = pairs.deep_view();
    let ghost entries = entries_of(items);
    let mut map = new_header_map();
    let mut i: usize = 0;
    assert(entries.take(0) =~= Seq::<(Seq<char>, Seq<u8>)>::empty());
    while i < pairs.len()
        invariant
            i <= pairs.len(),
            items == pairs.deep_view(),
            entries == entries_of(items),
            first_unfit(items, 0) == first_unfit(items, i as int),
            header_entries(map) == grouped(entries.take(i as int)),
        decreases pairs.len() - i,
    {
        assert(items[i as int] == (pairs[i as int].0@, pairs[i as int].1@));
        let name = pairs[i].0.as_str();
        let value = pairs[i].1.as_str();
        if header_name_of(name).is_none() {
            return Err(HeaderError::InvalidName { name: pairs[i].0.clone() });
        }
        if !header_value_ok(value) {
            return Err(HeaderError::InvalidValue { name: pairs[i].0.clone() });
        }
        proof {
            lemma_grouped(entries.take(i as int));
        }
        if !append_header(&mut map, name, value) {
            return Err(HeaderError::TooMany);
        }
        proof {
            assert(entries.take(i + 1).drop_last() =~= entries.take(i as int));
            assert(entries.take(i + 1).last() == entries[i as int]);
        }
        i += 1;
    }
    assert(entries.take(i as int) =~= entries);
    Ok(map)
}

} // verus!
