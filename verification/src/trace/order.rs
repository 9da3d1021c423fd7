//! The order of the pairs of a name and a value that a trace holds for HTTP
//! headers: by name, then by value, texts as their UTF-8 bytes.

use super::octets::{bytes_eq, utf8};
use vstd::prelude::*;

verus! {

/// True when `a` stands before `b` in the order of byte strings: at the
/// first place where they differ `a` has the smaller byte, or `a` ends there
/// and `b` does not.
pub open spec fn bytes_less(a: Seq<u8>, b: Seq<u8>) -> bool
    decreases a.len(),
{
    if b.len() == 0 {
        false
    } else if a.len() == 0 {
        true
    } else if a[0] != b[0] {
        a[0] < b[0]
    } else {
        bytes_less(a.drop_first(), b.drop_first())
    }
}

/// True when the pair `a` stands before the pair `b`: by name, and by value
/// where the names are the same. Texts are ordered as their UTF-8 bytes are.
pub open spec fn pair_less(a: (Seq<char>, Seq<char>), b: (Seq<char>, Seq<char>)) -> bool {
    bytes_less(utf8(a.0), utf8(b.0)) || (utf8(a.0) == utf8(b.0) && bytes_less(
        utf8(a.1),
        utf8(b.1),
    ))
}

/// True when no pair stands before the one before it: the pairs are sorted by
/// name and value.
pub open spec fn sorted(pairs: Seq<(Seq<char>, Seq<char>)>) -> bool {
    forall|i: int| 0 <= i && i + 1 < pairs.len() ==> !pair_less(#[trigger] pairs[i + 1], pairs[i])
}

/// Of two byte strings at most one stands before the other.
pub proof fn lemma_bytes_less_asymmetric(a: Seq<u8>, b: Seq<u8>)
    requires
        bytes_less(a, b),
    ensures
        !bytes_less(b, a),
        a != b,
    decreases a.len(),
{
    if a.len() > 0 && b.len() > 0 && a[0] == b[0] {
        lemma_bytes_less_asymmetric(a.drop_first(), b.drop_first());
        assert(a == b ==> a.drop_first() == b.drop_first());
    }
}

/// Of two pairs at most one stands before the other.
pub proof fn lemma_pair_less_asymmetric(a: (Seq<char>, Seq<char>), b: (Seq<char>, Seq<char>))
    requires
        pair_less(a, b),
    ensures
        !pair_less(b, a),
{
    if bytes_less(utf8(a.0), utf8(b.0)) {
        lemma_bytes_less_asymmetric(utf8(a.0), utf8(b.0));
    } else {
        lemma_bytes_less_asymmetric(utf8(a.1), utf8(b.1));
    }
}

/// True when `a` stands before `b` in the order of byte strings.
pub fn is_bytes_less(a: &[u8], b: &[u8]) -> (r: bool)
    ensures
        r == bytes_less(a@, b@),
{
    let mut i: usize = 0;
    assert(a@.skip(0) =~= a@ && b@.skip(0) =~= b@);
    while i < a.len() && i < b.len() && a[i] == b[i]
        invariant
            i <= a.len(),
            i <= b.len(),
            bytes_less(a@, b@) == bytes_less(a@.skip(i as int), b@.skip(i as int)),
        decreases a.len() - i,
    {
        assert(a@.skip(i as int).drop_first() =~= a@.skip(i + 1));
        assert(b@.skip(i as int).drop_first() =~= b@.skip(i + 1));
        i += 1;
    }
    if i >= b.len() {
        false
    } else if i >= a.len() {
        true
    } else {
        a[i] < b[i]
    }
}

/// True when the pair `a` stands before the pair `b`.
pub fn is_pair_less(a: &(String, String), b: &(String, String)) -> (r: bool)
    ensures
        r == pair_less((a.0@, a.1@), (b.0@, b.1@)),
{
    let a0 = a.0.as_str().as_bytes();
    let b0 = b.0.as_str().as_bytes();
    if is_bytes_less(a0, b0) {
        true
    } else if is_bytes_less(b0, a0) {
        proof {
            lemma_bytes_less_asymmetric(b0@, a0@);
        }
        false
    } else if bytes_eq(a0, b0) {
        is_bytes_less(a.1.as_str().as_bytes(), b.1.as_str().as_bytes())
    } else {
        false
    }
}

/// Puts a pair into sorted pairs, at its place: behind the pairs that do not
/// stand behind it. Gives the place.
pub fn insert_sorted(pairs: &mut Vec<(String, String)>, pair: (String, String)) -> (k: usize)
    requires
        sorted(old(pairs).deep_view()),
    ensures
        sorted(final(pairs).deep_view()),
        k <= old(pairs).len(),
        final(pairs).deep_view() == old(pairs).deep_view().insert(k as int, (pair.0@, pair.1@)),
{
    let ghost before = pairs.deep_view();
    let ghost model = (pair.0@, pair.1@);
    let mut k: usize = 0;
    while k < pairs.len() && !is_pair_less(&pair, &pairs[k])
        invariant
            k <= pairs.len(),
            before == pairs.deep_view(),
            model == (pair.0@, pair.1@),
            forall|i: int| 0 <= i < k ==> !pair_less(model, #[trigger] before[i]),
        decreases pairs.len() - k,
    {
        k += 1;
    }
    pairs.insert(k, pair);
    proof {
        let after = pairs.deep_view();
        assert(after =~= before.insert(k as int, model));
        assert forall|i: int| 0 <= i && i + 1 < after.len() implies !pair_less(
            #[trigger] after[i + 1],
            after[i],
        ) by {
            if i + 1 < k {
                assert(after[i + 1] == before[i + 1]);
            } else if i + 1 == k {
                assert(after[i] == before[i]);
            } else if i == k {
                assert(after[i + 1] == before[k as int]);
                lemma_pair_less_asymmetric(model, before[k as int]);
            } else {
                assert(after[i + 1] == before[i]);
                assert(after[i] == before[i - 1]);
                assert(!pair_less(before[(i - 1) + 1], before[i - 1]));
            }
        }
    }
    k
}

/// True when the pairs are sorted by name and value.
pub fn is_sorted(pairs: &Vec<(String, String)>) -> (r: bool)
    ensures
        r == sorted(pairs.deep_view()),
{
    let mut i: usize = 1;
    while i < pairs.len()
        invariant
            1 <= i,
            forall|j: int| 0 <= j && j + 1 < i && j + 1 < pairs.len() ==> !pair_less(
                #[trigger] pairs.deep_view()[j + 1],
                pairs.deep_view()[j],
            ),
        decreases pairs.len() - i,
    {
        if is_pair_less(&pairs[i], &pairs[i - 1]) {
            assert(pair_less(pairs.deep_view()[(i - 1) + 1], pairs.deep_view()[i - 1]));
            return false;
        }
        i += 1;
    }
    true
}

/// The pairs, sorted by name and value.
pub fn sort_pairs(pairs: Vec<(String, String)>) -> (r: Vec<(String, String)>)
    ensures
        sorted(r.deep_view()),
        r.deep_view().to_multiset() == pairs.deep_view().to_multiset(),
{
    let mut rest = pairs;
    let mut out: Vec<(String, String)> = Vec::new();
    let ghost all = rest.deep_view();
    proof {
        vstd::seq_lib::to_multiset_len(out.deep_view());
        assert(out.deep_view().to_multiset() =~= vstd::multiset::Multiset::empty());
        assert(out.deep_view().to_multiset().add(rest.deep_view().to_multiset())
            =~= all.to_multiset());
    }
    while rest.len() > 0
        invariant
            sorted(out.deep_view()),
            out.deep_view().to_multiset().add(rest.deep_view().to_multiset()) == all.to_multiset(),
        decreases rest.len(),
    {
        let ghost before = rest.deep_view();
        let ghost done = out.deep_view();
        let pair = rest.pop().unwrap();
        let ghost model = (pair.0@, pair.1@);
        let k = insert_sorted(&mut out, pair);
        proof {
            assert(rest.deep_view() =~= before.drop_last());
            assert(before =~= before.drop_last().push(model));
            vstd::seq_lib::to_multiset_build(before.drop_last(), model);
            vstd::seq_lib::to_multiset_insert(done, k as int, model);
            assert(done.to_multiset().insert(model).add(before.drop_last().to_multiset())
                =~= done.to_multiset().add(before.drop_last().to_multiset().insert(model)));
        }
    }
    assert(rest.deep_view().to_multiset() =~= vstd::multiset::Multiset::empty()) by {
        vstd::seq_lib::to_multiset_len(rest.deep_view());
    }
    assert(out.deep_view().to_multiset().add(vstd::multiset::Multiset::empty())
        =~= out.deep_view().to_multiset());
    out
}

/// True when the pair `a` does not stand behind the pair `b`.
pub open spec fn pair_le(a: (Seq<char>, Seq<char>), b: (Seq<char>, Seq<char>)) -> bool {
    !pair_less(b, a)
}

/// The order of the pairs, as a relation.
pub open spec fn pair_order() -> spec_fn((Seq<char>, Seq<char>), (Seq<char>, Seq<char>)) -> bool {
    |a: (Seq<char>, Seq<char>), b: (Seq<char>, Seq<char>)| pair_le(a, b)
}

/// Of two byte strings one stands before the other, or they are the same.
pub proof fn lemma_bytes_less_total(a: Seq<u8>, b: Seq<u8>)
    ensures
        bytes_less(a, b) || bytes_less(b, a) || a == b,
    decreases a.len(),
{
    if a.len() > 0 && b.len() > 0 {
        if a[0] == b[0] {
            lemma_bytes_less_total(a.drop_first(), b.drop_first());
            if a.drop_first() == b.drop_first() {
                assert(a =~= seq![a[0]] + a.drop_first());
                assert(b =~= seq![b[0]] + b.drop_first());
            }
        }
    } else if a.len() == 0 && b.len() == 0 {
        assert(a =~= b);
    }
}

/// What stands before a byte string stands before everything behind it.
pub proof fn lemma_bytes_less_transitive(a: Seq<u8>, b: Seq<u8>, c: Seq<u8>)
    requires
        bytes_less(a, b),
        bytes_less(b, c),
    ensures
        bytes_less(a, c),
    decreases a.len(),
{
    if a.len() > 0 && a[0] == b[0] && b[0] == c[0] {
        lemma_bytes_less_transitive(a.drop_first(), b.drop_first(), c.drop_first());
    }
}

/// Of two pairs one stands before the other, or they are the same.
pub proof fn lemma_pair_less_total(a: (Seq<char>, Seq<char>), b: (Seq<char>, Seq<char>))
    ensures
        pair_less(a, b) || pair_less(b, a) || a == b,
{
    lemma_bytes_less_total(utf8(a.0), utf8(b.0));
    lemma_bytes_less_total(utf8(a.1), utf8(b.1));
    vstd::utf8::encode_utf8_decode_utf8(a.0);
    vstd::utf8::encode_utf8_decode_utf8(b.0);
    vstd::utf8::encode_utf8_decode_utf8(a.1);
    vstd::utf8::encode_utf8_decode_utf8(b.1);
}

/// What stands before a pair stands before everything behind it.
pub proof fn lemma_pair_less_transitive(
    a: (Seq<char>, Seq<char>),
    b: (Seq<char>, Seq<char>),
    c: (Seq<char>, Seq<char>),
)
    requires
        pair_less(a, b),
        pair_less(b, c),
    ensures
        pair_less(a, c),
{
    if bytes_less(utf8(a.0), utf8(b.0)) && bytes_less(utf8(b.0), utf8(c.0)) {
        lemma_bytes_less_transitive(utf8(a.0), utf8(b.0), utf8(c.0));
    } else if utf8(a.0) == utf8(b.0) && utf8(b.0) == utf8(c.0) {
        lemma_bytes_less_transitive(utf8(a.1), utf8(b.1), utf8(c.1));
    }
}

/// The order of the pairs is a total order.
pub proof fn lemma_pair_order_is_total()
    ensures
        vstd::relations::total_ordering(pair_order()),
{
    let r = pair_order();
    assert forall|x: (Seq<char>, Seq<char>)| #[trigger] r(x, x) by {
        if pair_less(x, x) {
            lemma_pair_less_asymmetric(x, x);
        }
    }
    assert forall|x: (Seq<char>, Seq<char>), y: (Seq<char>, Seq<char>)|
        #[trigger] r(x, y) && #[trigger] r(y, x) implies x == y by {
        lemma_pair_less_total(x, y);
    }
    assert forall|x: (Seq<char>, Seq<char>), y: (Seq<char>, Seq<char>), z: (Seq<char>, Seq<char>)|
        #[trigger] r(x, y) && #[trigger] r(y, z) implies r(x, z) by {
        if pair_less(z, x) {
            lemma_pair_less_total(x, y);
            if pair_less(x, y) {
                lemma_pair_less_transitive(z, x, y);
            }
        }
    }
    assert forall|x: (Seq<char>, Seq<char>), y: (Seq<char>, Seq<char>)|
        #[trigger] r(x, y) || #[trigger] r(y, x) by {
        if pair_less(y, x) {
            lemma_pair_less_asymmetric(y, x);
        }
    }
}

/// In sorted pairs no pair stands before any pair before it.
pub proof fn lemma_sorted_throughout(pairs: Seq<(Seq<char>, Seq<char>)>, i: int, j: int)
    requires
        sorted(pairs),
        0 <= i <= j < pairs.len(),
    ensures
        pair_le(pairs[i], pairs[j]),
    decreases j - i,
{
    if i == j {
        if pair_less(pairs[i], pairs[i]) {
            lemma_pair_less_asymmetric(pairs[i], pairs[i]);
        }
    } else {
        lemma_sorted_throughout(pairs, i, j - 1);
        assert(!pair_less(pairs[(j - 1) + 1], pairs[j - 1]));
        if pair_less(pairs[j], pairs[i]) {
            lemma_pair_less_total(pairs[i], pairs[j - 1]);
            if pair_less(pairs[i], pairs[j - 1]) {
                lemma_pair_less_transitive(pairs[j], pairs[i], pairs[j - 1]);
            }
        }
    }
}

/// Sorting has one result: sorted pairs that hold the same pairs, each as
/// often, are the same list.
pub proof fn law_sorted_is_unique(x: Seq<(Seq<char>, Seq<char>)>, y: Seq<(Seq<char>, Seq<char>)>)
    requires
        sorted(x),
        sorted(y),
        x.to_multiset() == y.to_multiset(),
    ensures
        x == y,
{
    lemma_pair_order_is_total();
    assert forall|i: int, j: int| 0 <= i < j < x.len() implies #[trigger] pair_order()(
        x[i],
        x[j],
    ) by {
        lemma_sorted_throughout(x, i, j);
    }
    assert forall|i: int, j: int| 0 <= i < j < y.len() implies #[trigger] pair_order()(
        y[i],
        y[j],
    ) by {
        lemma_sorted_throughout(y, i, j);
    }
    vstd::seq_lib::lemma_sorted_unique(x, y, pair_order());
}

} // verus!

