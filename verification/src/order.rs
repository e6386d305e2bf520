//! The total order on items, and the sorting of an item list.
//!
//! Items are texts. They are ordered as `String` orders them: character by
//! character by code point, a proper prefix before the longer text.

use vstd::prelude::*;

verus! {

/// `a` comes before `b`, or is equal to it.
pub open spec fn text_le(a: Seq<char>, b: Seq<char>) -> bool
    decreases a.len(),
{
    if a.len() == 0 {
        true
    } else if b.len() == 0 {
        false
    } else if a[0] == b[0] {
        text_le(a.skip(1), b.skip(1))
    } else {
        (a[0] as u32) < (b[0] as u32)
    }
}

/// The texts that a list of strings holds, in order.
pub open spec fn texts(items: Seq<String>) -> Seq<Seq<char>> {
    Seq::new(items.len(), |i: int| items[i]@)
}

/// No item stands before a smaller one.
pub open spec fn sorted(items: Seq<Seq<char>>) -> bool {
    forall|i: int, j: int| 0 <= i < j < items.len() ==> text_le(#[trigger] items[i], #[trigger] items[j])
}

/// The list is sorted and holds no item twice.
pub open spec fn sorted_set(items: Seq<Seq<char>>) -> bool {
    sorted(items) && items.no_duplicates()
}

/// Every text is below or equal to itself.
pub proof fn lemma_text_le_reflexive(a: Seq<char>)
    ensures
        text_le(a, a),
    decreases a.len(),
{
    if a.len() > 0 {
        lemma_text_le_reflexive(a.skip(1));
    }
}

/// Of two texts, one is below or equal to the other.
pub proof fn lemma_text_le_total(a: Seq<char>, b: Seq<char>)
    ensures
        text_le(a, b) || text_le(b, a),
    decreases a.len(),
{
    if a.len() > 0 && b.len() > 0 {
        if a[0] == b[0] {
            lemma_text_le_total(a.skip(1), b.skip(1));
        } else {
            let x = a[0] as u32;
            let y = b[0] as u32;
            vstd::utf8::char_u32_cast(a[0], x);
            vstd::utf8::char_u32_cast(b[0], y);
            assert(x != y);
        }
    }
}

/// Two texts that are below or equal to each other are the same text.
pub proof fn lemma_text_le_antisymmetric(a: Seq<char>, b: Seq<char>)
    requires
        text_le(a, b),
        text_le(b, a),
    ensures
        a == b,
    decreases a.len(),
{
    if a.len() == 0 || b.len() == 0 {
        assert(a =~= b);
    } else {
        assert(a[0] == b[0]);
        lemma_text_le_antisymmetric(a.skip(1), b.skip(1));
        assert(a.len() == a.skip(1).len() + 1);
        assert(b.len() == b.skip(1).len() + 1);
        assert forall|i: int| 0 <= i < a.len() implies a[i] == b[i] by {
            if i > 0 {
                assert(a[i] == a.skip(1)[i - 1]);
                assert(b[i] == b.skip(1)[i - 1]);
            }
        }
        assert(a =~= b);
    }
}

/// The order is transitive.
pub proof fn lemma_text_le_transitive(a: Seq<char>, b: Seq<char>, c: Seq<char>)
    requires
        text_le(a, b),
        text_le(b, c),
    ensures
        text_le(a, c),
    decreases a.len(),
{
    if a.len() > 0 {
        if a[0] == b[0] && b[0] == c[0] {
            lemma_text_le_transitive(a.skip(1), b.skip(1), c.skip(1));
        }
    }
}

/// The order on texts is a total order in the sense of `vstd::relations`.
pub proof fn lemma_text_le_total_ordering()
    ensures
        vstd::relations::total_ordering(|a: Seq<char>, b: Seq<char>| text_le(a, b)),
{
    let leq = |a: Seq<char>, b: Seq<char>| text_le(a, b);
    assert forall|a: Seq<char>| #[trigger] leq(a, a) by {
        lemma_text_le_reflexive(a);
    }
    assert forall|a: Seq<char>, b: Seq<char>| #[trigger] leq(a, b) && #[trigger] leq(b, a) implies a
        == b by {
        lemma_text_le_antisymmetric(a, b);
    }
    assert forall|a: Seq<char>, b: Seq<char>, c: Seq<char>| #[trigger]
        leq(a, b) && #[trigger] leq(b, c) implies leq(a, c) by {
        lemma_text_le_transitive(a, b, c);
    }
    assert forall|a: Seq<char>, b: Seq<char>| #[trigger] leq(a, b) || #[trigger] leq(b, a) by {
        lemma_text_le_total(a, b);
    }
}

/// Two sorted lists that hold the same items, each as often as the other, are
/// the same list.
pub proof fn lemma_sorted_unique(a: Seq<Seq<char>>, b: Seq<Seq<char>>)
    requires
        sorted(a),
        sorted(b),
        a.to_multiset() == b.to_multiset(),
    ensures
        a == b,
{
    let leq = |x: Seq<char>, y: Seq<char>| text_le(x, y);
    lemma_text_le_total_ordering();
    assert(vstd::relations::sorted_by(a, leq));
    assert(vstd::relations::sorted_by(b, leq));
    vstd::seq_lib::lemma_sorted_unique(a, b, leq);
}

/// Two sorted lists without repeats that hold the same items are the same
/// list.
pub proof fn lemma_sorted_set_unique(a: Seq<Seq<char>>, b: Seq<Seq<char>>)
    requires
        sorted_set(a),
        sorted_set(b),
        forall|item: Seq<char>| a.contains(item) <==> b.contains(item),
    ensures
        a == b,
    decreases a.len(),
{
    if a.len() == 0 {
        if b.len() > 0 {
            assert(b.contains(b[0]));
        }
        assert(a =~= b);
    } else {
        assert(a.contains(a[0]));
        assert(b.contains(a[0]));
        let j = choose|j: int| 0 <= j < b.len() && b[j] == a[0];
        assert(b.contains(b[0]));
        let i = choose|i: int| 0 <= i < a.len() && a[i] == b[0];
        lemma_text_le_reflexive(a[0]);
        lemma_text_le_reflexive(b[0]);
        assert(text_le(a[0], a[i]));
        assert(text_le(b[0], b[j]));
        lemma_text_le_antisymmetric(a[0], b[0]);
        let rest_a = a.skip(1);
        let rest_b = b.skip(1);
        assert forall|m: int, n: int| 0 <= m < n < rest_a.len() implies text_le(
            #[trigger] rest_a[m],
            #[trigger] rest_a[n],
        ) by {
            assert(text_le(a[m + 1], a[n + 1]));
        }
        assert forall|m: int, n: int| 0 <= m < n < rest_b.len() implies text_le(
            #[trigger] rest_b[m],
            #[trigger] rest_b[n],
        ) by {
            assert(text_le(b[m + 1], b[n + 1]));
        }
        assert forall|item: Seq<char>| rest_a.contains(item) <==> rest_b.contains(item) by {
            if rest_a.contains(item) {
                let m = choose|m: int| 0 <= m < rest_a.len() && rest_a[m] == item;
                assert(a[m + 1] == item);
                assert(a.contains(item));
                let n = choose|n: int| 0 <= n < b.len() && b[n] == item;
                assert(n != 0);
                assert(rest_b[n - 1] == item);
            }
            if rest_b.contains(item) {
                let m = choose|m: int| 0 <= m < rest_b.len() && rest_b[m] == item;
                assert(b[m + 1] == item);
                assert(b.contains(item));
                let n = choose|n: int| 0 <= n < a.len() && a[n] == item;
                assert(n != 0);
                assert(rest_a[n - 1] == item);
            }
        }
        lemma_sorted_set_unique(rest_a, rest_b);
        assert(a =~= seq![a[0]] + rest_a);
        assert(b =~= seq![b[0]] + rest_b);
    }
}

/// Compares two items with `str`'s own `<=`, which orders strings
/// lexicographically by their bytes, that is by the code points of their
/// characters.
#[verifier::external_body]
pub(crate) fn item_le(a: &str, b: &str) -> (le: bool)
    ensures
        le == text_le(a@, b@),
{
    a <= b
}

/// Sorts the list with `slice::sort`: afterwards it is in ascending order and
/// holds the same items, each as often as before.
#[verifier::external_body]
pub(crate) fn sort_items(items: &mut Vec<String>)
    ensures
        sorted(texts(final(items)@)),
        texts(final(items)@).to_multiset() == texts(old(items)@).to_multiset(),
{
    items.sort()
}

} // verus!
