//! Bytes: where a rendering stands in a buffer, equality of slices, and the
//! passage between text and its UTF-8 bytes.

use vstd::prelude::*;
use vstd::slice::slice_subrange;
use vstd::utf8::{decode_utf8, encode_utf8, valid_utf8};

verus! {

/// The UTF-8 bytes of a text.
pub open spec fn utf8(text: Seq<char>) -> Seq<u8> {
    encode_utf8(text)
}

/// True when the buffer holds exactly the bytes `r` from `pos` on.
pub open spec fn holds_at(s: Seq<u8>, pos: int, r: Seq<u8>) -> bool {
    &&& 0 <= pos
    &&& pos + r.len() <= s.len()
    &&& s.subrange(pos, pos + r.len()) == r
}

/// A buffer that holds `a + b` holds `a` and, right behind it, `b`.
pub proof fn lemma_holds_split(s: Seq<u8>, pos: int, a: Seq<u8>, b: Seq<u8>)
    requires
        holds_at(s, pos, a + b),
    ensures
        holds_at(s, pos, a),
        holds_at(s, pos + a.len(), b),
{
    let whole = s.subrange(pos, pos + (a + b).len());
    assert forall|i: int| 0 <= i < a.len() implies s[pos + i] == a[i] by {
        assert(whole[i] == (a + b)[i]);
    }
    assert forall|i: int| 0 <= i < b.len() implies s[pos + a.len() + i] == b[i] by {
        assert(whole[a.len() + i] == (a + b)[a.len() + i]);
    }
    assert(s.subrange(pos, pos + a.len()) =~= a);
    assert(s.subrange(pos + a.len(), pos + a.len() + b.len()) =~= b);
}

/// A buffer that holds `w + (a + r)` holds `w + a` and, right behind it, `r`.
pub proof fn lemma_holds_after(s: Seq<u8>, pos: int, w: Seq<u8>, a: Seq<u8>, r: Seq<u8>)
    requires
        holds_at(s, pos, w + (a + r)),
    ensures
        holds_at(s, pos, w + a),
        holds_at(s, pos + w.len() + a.len(), r),
{
    assert(w + (a + r) =~= (w + a) + r);
    lemma_holds_split(s, pos, w + a, r);
}

/// The byte that a buffer holds at each place of a rendering it holds.
pub proof fn lemma_holds_index(s: Seq<u8>, pos: int, r: Seq<u8>, i: int)
    requires
        holds_at(s, pos, r),
        0 <= i < r.len(),
    ensures
        s[pos + i] == r[i],
{
    assert(s.subrange(pos, pos + r.len())[i] == r[i]);
}

/// True when the two slices hold the same bytes.
pub fn bytes_eq(a: &[u8], b: &[u8]) -> (r: bool)
    ensures
        r == (a@ == b@),
{
    if a.len() != b.len() {
        return false;
    }
    let mut i: usize = 0;
    while i < a.len()
        invariant
            a.len() == b.len(),
            i <= a.len(),
            forall|j: int| 0 <= j < i ==> a@[j] == b@[j],
        decreases a.len() - i,
    {
        if a[i] != b[i] {
            return false;
        }
        i += 1;
    }
    assert(a@ =~= b@);
    true
}

/// True when the buffer holds, from `start` to `end`, the UTF-8 bytes of `text`.
pub fn range_is(buf: &[u8], start: usize, end: usize, text: &str) -> (r: bool)
    requires
        start <= end <= buf.len(),
    ensures
        r == (buf@.subrange(start as int, end as int) == utf8(text@)),
{
    bytes_eq(slice_subrange(buf, start, end), text.as_bytes())
}

/// The bytes of the buffer from `start` to `end`, copied.
pub fn copy_range(buf: &[u8], start: usize, end: usize) -> (r: Vec<u8>)
    requires
        start <= end <= buf.len(),
    ensures
        r@ == buf@.subrange(start as int, end as int),
{
    let mut out: Vec<u8> = Vec::new();
    let mut i: usize = start;
    while i < end
        invariant
            start <= i <= end <= buf.len(),
            out@ == buf@.subrange(start as int, i as int),
        decreases end - i,
    {
        out.push(buf[i]);
        i += 1;
        assert(out@ =~= buf@.subrange(start as int, i as int));
    }
    out
}

/// Appends the bytes of `src` to `out`.
pub fn append(out: &mut Vec<u8>, src: &[u8])
    ensures
        final(out)@ == old(out)@ + src@,
{
    let mut i: usize = 0;
    while i < src.len()
        invariant
            i <= src.len(),
            out@ == old(out)@ + src@.subrange(0, i as int),
        decreases src.len() - i,
    {
        out.push(src[i]);
        i += 1;
        assert(out@ =~= old(out)@ + src@.subrange(0, i as int));
    }
    assert(src@.subrange(0, src.len() as int) =~= src@);
}

/// `String::from_utf8` of std: the text that the bytes encode, where they are
/// valid UTF-8, and nothing where they are not.
#[verifier::external_body]
pub(crate) fn string_from_utf8(bytes: Vec<u8>) -> (r: Option<String>)
    ensures
        r is Some <==> valid_utf8(bytes@),
        r matches Some(text) ==> text@ == decode_utf8(bytes@),
{
    String::from_utf8(bytes).ok()
}

/// The text whose UTF-8 bytes the buffer holds from `start` to `end`, if they
/// are valid UTF-8.
pub fn text_of_range(buf: &[u8], start: usize, end: usize) -> (r: Option<String>)
    requires
        start <= end <= buf.len(),
    ensures
        r is Some <==> valid_utf8(buf@.subrange(start as int, end as int)),
        r matches Some(text) ==> text@ == decode_utf8(buf@.subrange(start as int, end as int)),
{
    string_from_utf8(copy_range(buf, start, end))
}

} // verus!
