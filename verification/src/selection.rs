//! The mathematical model of item selections.
//!
//! A selection is a sequence of indices into an item sequence. The spec
//! functions here give a selection its total weight and total value, say when
//! it is a well-formed subset (indices in range, no index twice), and map it
//! back to the items it picks. Both solvers' contracts are stated over these.

use crate::traits::{Value, Weight};
use vstd::prelude::*;

verus! {

/// The total weight of the items that `sel` picks out of `items`.
pub open spec fn sum_weight<T: Weight>(items: Seq<T>, sel: Seq<int>) -> int
    decreases sel.len(),
{
    if sel.len() == 0 {
        0
    } else {
        sum_weight(items, sel.drop_last()) + items[sel.last()].spec_weight()
    }
}

/// The total value of the items that `sel` picks out of `items`.
pub open spec fn sum_value<T: Value>(items: Seq<T>, sel: Seq<int>) -> int
    decreases sel.len(),
{
    if sel.len() == 0 {
        0
    } else {
        sum_value(items, sel.drop_last()) + items[sel.last()].spec_value()
    }
}

/// Every index of `sel` lies in `0..n`.
pub open spec fn in_range(sel: Seq<int>, n: int) -> bool {
    forall|j: int| 0 <= j < sel.len() ==> 0 <= #[trigger] sel[j] < n
}

/// No index occurs twice in `sel`: the 0/1 property of a selection.
pub open spec fn distinct_indices(sel: Seq<int>) -> bool {
    forall|j: int, k: int| 0 <= j < k < sel.len() ==> sel[j] != sel[k]
}

/// The indices of `sel` are strictly increasing.
pub open spec fn strictly_increasing(sel: Seq<int>) -> bool {
    forall|j: int, k: int| 0 <= j < k < sel.len() ==> sel[j] < sel[k]
}

/// A well-formed subset of the first `n` items: indices in range and no
/// index twice.
pub open spec fn valid_selection(sel: Seq<int>, n: int) -> bool {
    in_range(sel, n) && distinct_indices(sel)
}

/// The items that `sel` picks out of `items`, in selection order.
pub open spec fn items_at<T>(items: Seq<T>, sel: Seq<int>) -> Seq<T> {
    Seq::new(sel.len(), |j: int| items[sel[j]])
}

/// Total weights are never negative.
pub proof fn lemma_sum_weight_nonneg<T: Weight>(items: Seq<T>, sel: Seq<int>)
    ensures
        sum_weight(items, sel) >= 0,
    decreases sel.len(),
{
    if sel.len() > 0 {
        lemma_sum_weight_nonneg(items, sel.drop_last());
    }
}

/// The total weight of a concatenation is the sum of the totals.
pub proof fn lemma_sum_weight_concat<T: Weight>(items: Seq<T>, a: Seq<int>, b: Seq<int>)
    ensures
        sum_weight(items, a + b) == sum_weight(items, a) + sum_weight(items, b),
    decreases b.len(),
{
    if b.len() == 0 {
        assert(a + b =~= a);
    } else {
        lemma_sum_weight_concat(items, a, b.drop_last());
        assert((a + b).drop_last() =~= a + b.drop_last());
        assert((a + b).last() == b.last());
    }
}

/// The total value of a concatenation is the sum of the totals.
pub proof fn lemma_sum_value_concat<T: Value>(items: Seq<T>, a: Seq<int>, b: Seq<int>)
    ensures
        sum_value(items, a + b) == sum_value(items, a) + sum_value(items, b),
    decreases b.len(),
{
    if b.len() == 0 {
        assert(a + b =~= a);
    } else {
        lemma_sum_value_concat(items, a, b.drop_last());
        assert((a + b).drop_last() =~= a + b.drop_last());
        assert((a + b).last() == b.last());
    }
}

/// A one-index selection weighs exactly its item.
pub proof fn lemma_sum_weight_single<T: Weight>(items: Seq<T>, x: int)
    ensures
        sum_weight(items, seq![x]) == items[x].spec_weight(),
{
    assert(seq![x].last() == x);
    assert(seq![x].drop_last() =~= Seq::<int>::empty());
    assert(sum_weight(items, Seq::<int>::empty()) == 0);
}

/// A one-index selection is worth exactly its item.
pub proof fn lemma_sum_value_single<T: Value>(items: Seq<T>, x: int)
    ensures
        sum_value(items, seq![x]) == items[x].spec_value(),
{
    assert(seq![x].last() == x);
    assert(seq![x].drop_last() =~= Seq::<int>::empty());
    assert(sum_value(items, Seq::<int>::empty()) == 0);
}

/// Removing one position from a selection removes exactly that item's weight
/// and value from the totals.
pub proof fn lemma_sum_remove<T: Weight + Value>(items: Seq<T>, sel: Seq<int>, pos: int)
    requires
        0 <= pos < sel.len(),
    ensures
        sum_weight(items, sel) == sum_weight(items, sel.remove(pos)) + items[sel[pos]].spec_weight(),
        sum_value(items, sel) == sum_value(items, sel.remove(pos)) + items[sel[pos]].spec_value(),
{
    let a = sel.subrange(0, pos);
    let b = sel.subrange(pos + 1, sel.len() as int);
    let mid = seq![sel[pos]];
    assert(sel =~= a + (mid + b));
    lemma_sum_weight_concat(items, a, mid + b);
    lemma_sum_weight_concat(items, mid, b);
    lemma_sum_weight_single(items, sel[pos]);
    lemma_sum_value_concat(items, a, mid + b);
    lemma_sum_value_concat(items, mid, b);
    lemma_sum_value_single(items, sel[pos]);
    assert(sel.remove(pos) == a + b);
    lemma_sum_weight_concat(items, a, b);
    lemma_sum_value_concat(items, a, b);
}

} // verus!
