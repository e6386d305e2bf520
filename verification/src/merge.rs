//! Merging two item lists into one without repeated items.

use crate::order::{lemma_text_le_total, lemma_text_le_transitive, sorted, text_le};
use vstd::prelude::*;

verus! {

/// The two-pointer merge: the smaller of the two first items goes first, the
/// one of `a` where they are equal, and what is left of one list follows when
/// the other is used up.
pub open spec fn merge(a: Seq<Seq<char>>, b: Seq<Seq<char>>) -> Seq<Seq<char>>
    decreases a.len() + b.len(),
{
    if a.len() == 0 {
        b
    } else if b.len() == 0 {
        a
    } else if text_le(a[0], b[0]) {
        seq![a[0]] + merge(a.skip(1), b)
    } else {
        seq![b[0]] + merge(a, b.skip(1))
    }
}

/// The list without repeats: of each item only the first occurrence stays, and
/// what stays keeps its order.
pub open spec fn distinct(items: Seq<Seq<char>>) -> Seq<Seq<char>>
    decreases items.len(),
{
    if items.len() == 0 {
        items
    } else {
        let before = distinct(items.drop_last());
        if before.contains(items.last()) {
            before
        } else {
            before.push(items.last())
        }
    }
}

/// The merge of two lists, without repeats.
pub open spec fn merge_unique(a: Seq<Seq<char>>, b: Seq<Seq<char>>) -> Seq<Seq<char>> {
    distinct(merge(a, b))
}

/// The length of a merge is the sum of the lengths.
pub proof fn lemma_merge_len(a: Seq<Seq<char>>, b: Seq<Seq<char>>)
    ensures
        merge(a, b).len() == a.len() + b.len(),
    decreases a.len() + b.len(),
{
    if a.len() == 0 || b.len() == 0 {
    } else if text_le(a[0], b[0]) {
        lemma_merge_len(a.skip(1), b);
    } else {
        lemma_merge_len(a, b.skip(1));
    }
}

/// An item is in a list exactly if it is the first item or is in the rest.
pub proof fn lemma_contains_first_or_rest(items: Seq<Seq<char>>, item: Seq<char>)
    requires
        items.len() > 0,
    ensures
        items.contains(item) <==> items[0] == item || items.skip(1).contains(item),
{
    if items.contains(item) {
        let i = choose|i: int| 0 <= i < items.len() && items[i] == item;
        if i > 0 {
            assert(items.skip(1)[i - 1] == item);
        }
    }
    if items.skip(1).contains(item) {
        let i = choose|i: int| 0 <= i < items.skip(1).len() && items.skip(1)[i] == item;
        assert(items[i + 1] == item);
    }
}

/// The merge holds exactly the items of its two lists.
pub proof fn lemma_merge_contains(a: Seq<Seq<char>>, b: Seq<Seq<char>>, item: Seq<char>)
    ensures
        merge(a, b).contains(item) <==> a.contains(item) || b.contains(item),
    decreases a.len() + b.len(),
{
    if a.len() == 0 || b.len() == 0 {
    } else if text_le(a[0], b[0]) {
        let rest = merge(a.skip(1), b);
        lemma_merge_contains(a.skip(1), b, item);
        lemma_contains_first_or_rest(a, item);
        lemma_contains_first_or_rest(merge(a, b), item);
        assert(merge(a, b).skip(1) =~= rest);
    } else {
        let rest = merge(a, b.skip(1));
        lemma_merge_contains(a, b.skip(1), item);
        lemma_contains_first_or_rest(b, item);
        lemma_contains_first_or_rest(merge(a, b), item);
        assert(merge(a, b).skip(1) =~= rest);
    }
}

/// A list is sorted if its first item is below or equal to every other and
/// the rest is sorted.
pub proof fn lemma_sorted_from_rest(items: Seq<Seq<char>>)
    requires
        items.len() > 0,
        sorted(items.skip(1)),
        forall|i: int| 0 < i < items.len() ==> text_le(items[0], #[trigger] items[i]),
    ensures
        sorted(items),
{
    assert forall|i: int, j: int| 0 <= i < j < items.len() implies text_le(
        #[trigger] items[i],
        #[trigger] items[j],
    ) by {
        if i > 0 {
            assert(items[i] == items.skip(1)[i - 1]);
            assert(items[j] == items.skip(1)[j - 1]);
        }
    }
}

/// The rest of a sorted list is sorted.
pub proof fn lemma_sorted_rest(items: Seq<Seq<char>>)
    requires
        items.len() > 0,
        sorted(items),
    ensures
        sorted(items.skip(1)),
{
    assert forall|i: int, j: int| 0 <= i < j < items.skip(1).len() implies text_le(
        #[trigger] items.skip(1)[i],
        #[trigger] items.skip(1)[j],
    ) by {
        assert(items.skip(1)[i] == items[i + 1]);
        assert(items.skip(1)[j] == items[j + 1]);
    }
}

/// The merge of two sorted lists is sorted.
pub proof fn lemma_merge_sorted(a: Seq<Seq<char>>, b: Seq<Seq<char>>)
    requires
        sorted(a),
        sorted(b),
    ensures
        sorted(merge(a, b)),
    decreases a.len() + b.len(),
{
    if a.len() == 0 || b.len() == 0 {
    } else {
        let whole = merge(a, b);
        let first = if text_le(a[0], b[0]) {
            a[0]
        } else {
            b[0]
        };
        let rest = if text_le(a[0], b[0]) {
            merge(a.skip(1), b)
        } else {
            merge(a, b.skip(1))
        };
        assert(whole.skip(1) =~= rest);
        assert(whole[0] == first);
        lemma_text_le_total(a[0], b[0]);
        if text_le(a[0], b[0]) {
            lemma_sorted_rest(a);
            lemma_merge_sorted(a.skip(1), b);
        } else {
            lemma_sorted_rest(b);
            lemma_merge_sorted(a, b.skip(1));
        }
        assert forall|i: int| 0 < i < whole.len() implies text_le(whole[0], #[trigger] whole[i]) by {
            let item = whole[i];
            assert(rest[i - 1] == item);
            assert(rest.contains(item));
            if text_le(a[0], b[0]) {
                lemma_merge_contains(a.skip(1), b, item);
                if a.skip(1).contains(item) {
                    let k = choose|k: int| 0 <= k < a.skip(1).len() && a.skip(1)[k] == item;
                    assert(text_le(a[0], a[k + 1]));
                } else {
                    let k = choose|k: int| 0 <= k < b.len() && b[k] == item;
                    lemma_first_is_least(b, k);
                    lemma_text_le_transitive(a[0], b[0], item);
                }
            } else {
                lemma_merge_contains(a, b.skip(1), item);
                if b.skip(1).contains(item) {
                    let k = choose|k: int| 0 <= k < b.skip(1).len() && b.skip(1)[k] == item;
                    assert(text_le(b[0], b[k + 1]));
                } else {
                    let k = choose|k: int| 0 <= k < a.len() && a[k] == item;
                    lemma_first_is_least(a, k);
                    lemma_text_le_transitive(b[0], a[0], item);
                }
            }
        }
        lemma_sorted_from_rest(whole);
    }
}

/// In a sorted list the first item is below or equal to every item, itself
/// included.
pub proof fn lemma_first_is_least(items: Seq<Seq<char>>, k: int)
    requires
        sorted(items),
        0 <= k < items.len(),
    ensures
        text_le(items[0], items[k]),
{
    if k == 0 {
        crate::order::lemma_text_le_reflexive(items[0]);
    }
}

/// Dropping repeats neither adds an item nor loses one, leaves no item twice,
/// and changes nothing in a list that holds none twice.
pub proof fn lemma_distinct(items: Seq<Seq<char>>)
    ensures
        forall|item: Seq<char>| distinct(items).contains(item) <==> items.contains(item),
        distinct(items).no_duplicates(),
        items.no_duplicates() ==> distinct(items) == items,
        distinct(items).len() <= items.len(),
    decreases items.len(),
{
    if items.len() > 0 {
        let init = items.drop_last();
        let before = distinct(init);
        lemma_distinct(init);
        assert forall|item: Seq<char>| distinct(items).contains(item) <==> items.contains(
            item,
        ) by {
            if items.contains(item) {
                let i = choose|i: int| 0 <= i < items.len() && items[i] == item;
                if i < init.len() {
                    assert(init[i] == item);
                    assert(init.contains(item));
                    assert(before.contains(item));
                }
                if !before.contains(items.last()) {
                    assert(before.push(items.last())[before.len() as int] == items.last());
                    if before.contains(item) {
                        let k = choose|k: int| 0 <= k < before.len() && before[k] == item;
                        assert(before.push(items.last())[k] == item);
                    }
                }
            }
            if distinct(items).contains(item) {
                let k = choose|k: int| 0 <= k < distinct(items).len() && distinct(items)[k] == item;
                if k < before.len() {
                    assert(before[k] == item);
                    assert(before.contains(item));
                    assert(init.contains(item));
                    let i = choose|i: int| 0 <= i < init.len() && init[i] == item;
                    assert(items[i] == item);
                } else {
                    assert(item == items.last());
                    assert(items[items.len() - 1] == item);
                }
            }
        }
        if items.no_duplicates() {
            assert(init.no_duplicates());
            if init.contains(items.last()) {
                let i = choose|i: int| 0 <= i < init.len() && init[i] == items.last();
                assert(items[i] == items[items.len() - 1]);
            }
            assert(before.push(items.last()) =~= items);
        }
    }
}

/// Dropping repeats keeps a sorted list sorted.
pub proof fn lemma_distinct_sorted(items: Seq<Seq<char>>)
    requires
        sorted(items),
    ensures
        sorted(distinct(items)),
    decreases items.len(),
{
    if items.len() > 0 {
        let init = items.drop_last();
        let before = distinct(init);
        assert forall|i: int, j: int| 0 <= i < j < init.len() implies text_le(
            #[trigger] init[i],
            #[trigger] init[j],
        ) by {
            assert(init[i] == items[i]);
            assert(init[j] == items[j]);
        }
        lemma_distinct_sorted(init);
        lemma_distinct(init);
        if !before.contains(items.last()) {
            let all = before.push(items.last());
            assert forall|i: int, j: int| 0 <= i < j < all.len() implies text_le(
                #[trigger] all[i],
                #[trigger] all[j],
            ) by {
                if j == before.len() {
                    assert(before.contains(before[i]));
                    assert(init.contains(before[i]));
                    let k = choose|k: int| 0 <= k < init.len() && init[k] == before[i];
                    assert(text_le(items[k], items[items.len() - 1]));
                } else {
                    assert(text_le(before[i], before[j]));
                }
            }
        }
    }
}

} // verus!
