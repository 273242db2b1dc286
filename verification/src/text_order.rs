//! The order of strings and of lists of strings, and sorting by it.
//!
//! Strings are ordered lexicographically by their characters, which is the
//! order of their UTF-8 bytes; lists of strings lexicographically by their
//! elements. These are the orders of `String` and `Vec<String>`.

use vstd::prelude::*;
use vstd::relations::{
    antisymmetric,
    reflexive,
    sorted_by,
    strongly_connected,
    total_ordering,
    transitive,
};

verus! {

/// `a` comes before or equals `b` in the order of strings.
pub open spec fn text_le(a: Seq<char>, b: Seq<char>) -> bool
    decreases a.len(),
{
    if a.len() == 0 {
        true
    } else if b.len() == 0 {
        false
    } else if a[0] == b[0] {
        text_le(a.drop_first(), b.drop_first())
    } else {
        (a[0] as int) < (b[0] as int)
    }
}

/// `a` comes before or equals `b` in the order of lists of strings.
pub open spec fn key_le(a: Seq<Seq<char>>, b: Seq<Seq<char>>) -> bool
    decreases a.len(),
{
    if a.len() == 0 {
        true
    } else if b.len() == 0 {
        false
    } else if a[0] == b[0] {
        key_le(a.drop_first(), b.drop_first())
    } else {
        text_le(a[0], b[0])
    }
}

/// The order of lists of strings, as a relation.
pub open spec fn key_order() -> spec_fn(Seq<Seq<char>>, Seq<Seq<char>>) -> bool {
    |a: Seq<Seq<char>>, b: Seq<Seq<char>>| key_le(a, b)
}

/// The text of each string of each key.
pub open spec fn keys_view(v: Seq<Vec<String>>) -> Seq<Seq<Seq<char>>> {
    v.map_values(|k: Vec<String>| k@.map_values(|s: String| s@))
}

pub(crate) proof fn lemma_text_le_refl(a: Seq<char>)
    ensures
        text_le(a, a),
    decreases a.len(),
{
    if a.len() > 0 {
        lemma_text_le_refl(a.drop_first());
    }
}

pub(crate) proof fn lemma_text_le_total(a: Seq<char>, b: Seq<char>)
    ensures
        text_le(a, b) || text_le(b, a),
        text_le(a, b) && text_le(b, a) ==> a == b,
    decreases a.len(),
{
    if a.len() > 0 && b.len() > 0 && a[0] != b[0] {
        assert((a[0] as int) != (b[0] as int));
    }
    if a.len() > 0 && b.len() > 0 && a[0] == b[0] {
        lemma_text_le_total(a.drop_first(), b.drop_first());
        if text_le(a, b) && text_le(b, a) {
            assert(a =~= seq![a[0]] + a.drop_first());
            assert(b =~= seq![b[0]] + b.drop_first());
        }
    }
}

pub(crate) proof fn lemma_text_le_trans(a: Seq<char>, b: Seq<char>, c: Seq<char>)
    ensures
        text_le(a, b) && text_le(b, c) ==> text_le(a, c),
    decreases a.len(),
{
    if text_le(a, b) && text_le(b, c) && a.len() > 0 && b.len() > 0 && c.len() > 0 {
        if a[0] == b[0] && b[0] == c[0] {
            lemma_text_le_trans(a.drop_first(), b.drop_first(), c.drop_first());
        }
    }
}

pub(crate) proof fn lemma_key_le_refl(a: Seq<Seq<char>>)
    ensures
        key_le(a, a),
    decreases a.len(),
{
    if a.len() > 0 {
        lemma_key_le_refl(a.drop_first());
    }
}

pub(crate) proof fn lemma_key_le_total(a: Seq<Seq<char>>, b: Seq<Seq<char>>)
    ensures
        key_le(a, b) || key_le(b, a),
        key_le(a, b) && key_le(b, a) ==> a == b,
    decreases a.len(),
{
    if a.len() > 0 && b.len() > 0 {
        lemma_text_le_total(a[0], b[0]);
        if a[0] == b[0] {
            lemma_key_le_total(a.drop_first(), b.drop_first());
            if key_le(a, b) && key_le(b, a) {
                assert(a =~= seq![a[0]] + a.drop_first());
                assert(b =~= seq![b[0]] + b.drop_first());
            }
        }
    }
}

pub(crate) proof fn lemma_key_le_trans(a: Seq<Seq<char>>, b: Seq<Seq<char>>, c: Seq<Seq<char>>)
    ensures
        key_le(a, b) && key_le(b, c) ==> key_le(a, c),
    decreases a.len(),
{
    if key_le(a, b) && key_le(b, c) && a.len() > 0 && b.len() > 0 && c.len() > 0 {
        lemma_text_le_trans(a[0], b[0], c[0]);
        lemma_text_le_total(a[0], b[0]);
        lemma_text_le_total(b[0], c[0]);
        lemma_text_le_total(a[0], c[0]);
        if a[0] == b[0] && b[0] == c[0] {
            lemma_key_le_trans(a.drop_first(), b.drop_first(), c.drop_first());
        }
    }
}

/// The order of lists of strings is a total order.
pub proof fn lemma_key_order_total()
    ensures
        total_ordering(key_order()),
{
    let r = key_order();
    assert forall|x: Seq<Seq<char>>| #[trigger] r(x, x) by {
        lemma_key_le_refl(x);
    }
    assert forall|x: Seq<Seq<char>>, y: Seq<Seq<char>>| #[trigger] r(x, y) && #[trigger] r(y, x)
        implies x == y by {
        lemma_key_le_total(x, y);
    }
    assert forall|x: Seq<Seq<char>>, y: Seq<Seq<char>>, z: Seq<Seq<char>>|
        #[trigger] r(x, y) && #[trigger] r(y, z) implies r(x, z) by {
        lemma_key_le_trans(x, y, z);
    }
    assert forall|x: Seq<Seq<char>>, y: Seq<Seq<char>>| #[trigger] r(x, y) || #[trigger] r(y, x) by {
        lemma_key_le_total(x, y);
    }
    assert(reflexive(r));
    assert(antisymmetric(r));
    assert(transitive(r));
    assert(strongly_connected(r));
}

/// Whether `a` comes strictly before `b` in the order of strings.
pub(crate) fn text_lt(a: &str, b: &str) -> (r: bool)
    ensures
        r == !text_le(b@, a@),
{
    let x = crate::strings::chars_of(a);
    let y = crate::strings::chars_of(b);
    let mut i: usize = 0;
    assert(y@.subrange(0, y@.len() as int) =~= y@);
    assert(x@.subrange(0, x@.len() as int) =~= x@);
    while i < x.len() && i < y.len() && x[i] == y[i]
        invariant
            i <= x@.len(),
            i <= y@.len(),
            x@ == a@,
            y@ == b@,
            text_le(b@, a@) == text_le(y@.subrange(i as int, y@.len() as int), x@.subrange(i as int, x@.len() as int)),
        decreases x@.len() - i,
    {
        proof {
            let ys = y@.subrange(i as int, y@.len() as int);
            let xs = x@.subrange(i as int, x@.len() as int);
            assert(ys.drop_first() =~= y@.subrange(i + 1, y@.len() as int));
            assert(xs.drop_first() =~= x@.subrange(i + 1, x@.len() as int));
            assert(ys[0] == xs[0]);
        }
        i = i + 1;
    }
    let ghost ys = y@.subrange(i as int, y@.len() as int);
    let ghost xs = x@.subrange(i as int, x@.len() as int);
    if i == y.len() {
        assert(ys.len() == 0);
        false
    } else if i == x.len() {
        assert(xs.len() == 0);
        true
    } else {
        assert(ys[0] == y@[i as int] && xs[0] == x@[i as int]);
        assert((x@[i as int] as int) != (y@[i as int] as int));
        x[i] < y[i]
    }
}

/// `slice::sort_unstable` on lists of strings: the result is a permutation
/// of the input, in the order of `Vec<String>` (lexicographic by element,
/// each string by its bytes, which is the order of its characters).
#[verifier::external_body]
fn sort_unstable_keys(v: &mut Vec<Vec<String>>)
    ensures
        keys_view(final(v)@).to_multiset() == keys_view(old(v)@).to_multiset(),
        sorted_by(keys_view(final(v)@), key_order()),
{
    v.sort_unstable()
}

/// Sorts lists of strings: the result is the input in the order of lists of
/// strings.
pub(crate) fn sort_keys(v: &mut Vec<Vec<String>>)
    ensures
        keys_view(final(v)@) == keys_view(old(v)@).sort_by(key_order()),
{
    let ghost before = keys_view(v@);
    sort_unstable_keys(v);
    proof {
        lemma_key_order_total();
        before.lemma_sort_by_ensures(key_order());
        vstd::seq_lib::lemma_sorted_unique(keys_view(v@), before.sort_by(key_order()), key_order());
    }
}

} // verus!
