//! The greedy value-density solver.
//!
//! Items are ranked by value-to-weight ratio, best first, and admitted in that
//! order whenever they still fit in the remaining capacity. Ratios compare as
//! exact rationals (by cross-multiplication). Zero-weight items do not have a
//! ratio; they rank above every weighted item when their value is positive and
//! below everything otherwise, so that worthless free items never displace a
//! substantive decision. Ties among free valuable items break by descending
//! value, all other ties by ascending input position.

use crate::selection::{
    distinct_indices, in_range, items_at, lemma_sum_weight_concat, lemma_sum_weight_single,
    sum_weight, valid_selection,
};
use crate::traits::{Duplicable, Value, Weight};
use vstd::prelude::*;

verus! {

/// The ranking class of item `k`: weighted items rank 1, free valuable items
/// rank 2 (above everything), free worthless items rank 0 (below everything).
pub open spec fn ratio_rank<T: Weight + Value>(items: Seq<T>, k: int) -> int {
    if items[k].spec_weight() > 0 {
        1
    } else if items[k].spec_value() > 0 {
        2
    } else {
        0
    }
}

/// The strict total order in which the greedy pass considers items: `a`
/// strictly precedes `b`. Higher ranking class first; within the weighted
/// class, higher ratio first (compared exactly, by cross-multiplication);
/// within the free valuable class, higher value first. Any remaining tie
/// breaks by ascending input position, which also makes the order total.
pub open spec fn comes_before<T: Weight + Value>(items: Seq<T>, a: int, b: int) -> bool {
    let wa = items[a].spec_weight() as int;
    let va = items[a].spec_value() as int;
    let wb = items[b].spec_weight() as int;
    let vb = items[b].spec_value() as int;
    if ratio_rank(items, a) != ratio_rank(items, b) {
        ratio_rank(items, a) > ratio_rank(items, b)
    } else if ratio_rank(items, a) == 2 {
        va > vb || (va == vb && a < b)
    } else if ratio_rank(items, a) == 1 {
        va * wb > vb * wa || (va * wb == vb * wa && a < b)
    } else {
        a < b
    }
}

/// Inserts index `k` into `order` directly before the first entry that `k`
/// strictly precedes.
pub open spec fn insert_by_ratio<T: Weight + Value>(
    items: Seq<T>,
    order: Seq<int>,
    k: int,
) -> Seq<int>
    decreases order.len(),
{
    if order.len() == 0 {
        seq![k]
    } else if comes_before(items, k, order[0]) {
        seq![k] + order
    } else {
        seq![order[0]] + insert_by_ratio(items, order.drop_first(), k)
    }
}

/// The order in which the greedy pass considers the first `i` items: indices
/// `0..i` arranged by `comes_before`, obtained by inserting each index in
/// turn.
pub open spec fn ratio_order<T: Weight + Value>(items: Seq<T>, i: int) -> Seq<int>
    decreases i,
{
    if i <= 0 {
        Seq::empty()
    } else {
        insert_by_ratio(items, ratio_order(items, i - 1), i - 1)
    }
}

/// Walks `order`, admitting each index whose item still fits in the remaining
/// capacity; an item that does not fit is skipped for good.
pub open spec fn admit_items<T: Weight + Value>(
    items: Seq<T>,
    order: Seq<int>,
    cap: int,
) -> Seq<int>
    decreases order.len(),
{
    if order.len() == 0 {
        Seq::empty()
    } else {
        let k = order[0];
        let w = items[k].spec_weight() as int;
        if w <= cap {
            seq![k] + admit_items(items, order.drop_first(), cap - w)
        } else {
            admit_items(items, order.drop_first(), cap)
        }
    }
}

/// The greedy solver's selection: the admission walk over the ratio order,
/// except that an empty item set or a zero capacity short-circuits to the
/// empty selection before anything is ranked.
pub open spec fn greedy_selection<T: Weight + Value>(items: Seq<T>, cap: int) -> Seq<int> {
    if items.len() == 0 || cap <= 0 {
        Seq::empty()
    } else {
        admit_items(items, ratio_order(items, items.len() as int), cap)
    }
}

/// `order` lists its entries best-first: every entry strictly precedes all
/// later ones.
pub open spec fn sorted_by_ratio<T: Weight + Value>(items: Seq<T>, order: Seq<int>) -> bool {
    forall|j: int, l: int|
        0 <= j < l < order.len() ==> comes_before(items, #[trigger] order[j], #[trigger] order[l])
}

/// Totality of the ranking: of two distinct indices, one strictly precedes
/// the other.
proof fn lemma_comes_before_total<T: Weight + Value>(items: Seq<T>, a: int, b: int)
    requires
        a != b,
    ensures
        comes_before(items, a, b) || comes_before(items, b, a),
{
}

/// Transitivity of the ranking.
proof fn lemma_comes_before_trans<T: Weight + Value>(items: Seq<T>, a: int, b: int, c: int)
    requires
        comes_before(items, a, b),
        comes_before(items, b, c),
    ensures
        comes_before(items, a, c),
{
    let wa = items[a].spec_weight() as int;
    let va = items[a].spec_value() as int;
    let wb = items[b].spec_weight() as int;
    let vb = items[b].spec_value() as int;
    let wc = items[c].spec_weight() as int;
    let vc = items[c].spec_value() as int;
    if ratio_rank(items, a) == ratio_rank(items, b) && ratio_rank(items, b) == ratio_rank(
        items,
        c,
    ) && ratio_rank(items, a) == 1 {
        if va * wb > vb * wa {
            assert(va * wc > vc * wa) by (nonlinear_arith)
                requires
                    va * wb > vb * wa,
                    vb * wc >= vc * wb,
                    wa > 0,
                    wb > 0,
                    wc > 0,
            ;
        } else if vb * wc > vc * wb {
            assert(va * wc > vc * wa) by (nonlinear_arith)
                requires
                    va * wb == vb * wa,
                    vb * wc > vc * wb,
                    wa > 0,
                    wb > 0,
                    wc > 0,
            ;
        } else {
            assert(va * wc == vc * wa) by (nonlinear_arith)
                requires
                    va * wb == vb * wa,
                    vb * wc == vc * wb,
                    wb > 0,
            ;
        }
    }
}

/// Inserting a fresh index into a best-first order keeps it best-first.
proof fn lemma_insert_by_ratio_sorted<T: Weight + Value>(items: Seq<T>, order: Seq<int>, k: int)
    requires
        sorted_by_ratio(items, order),
        !order.contains(k),
    ensures
        sorted_by_ratio(items, insert_by_ratio(items, order, k)),
    decreases order.len(),
{
    let res = insert_by_ratio(items, order, k);
    if order.len() == 0 {
    } else if comes_before(items, k, order[0]) {
        assert forall|j: int, l: int| 0 <= j < l < res.len() implies comes_before(
            items,
            #[trigger] res[j],
            #[trigger] res[l],
        ) by {
            if j == 0 {
                assert(res[l] == order[l - 1]);
                if l > 1 {
                    lemma_comes_before_trans(items, k, order[0], order[l - 1]);
                }
            } else {
                assert(res[j] == order[j - 1]);
                assert(res[l] == order[l - 1]);
            }
        }
    } else {
        let head = order[0];
        let tail = order.drop_first();
        assert forall|x: int| tail.contains(x) implies order.contains(x) by {
            let j = choose|j: int| 0 <= j < tail.len() && tail[j] == x;
            assert(order[j + 1] == x);
        }
        assert(!tail.contains(k));
        assert(sorted_by_ratio(items, tail)) by {
            assert forall|j: int, l: int| 0 <= j < l < tail.len() implies comes_before(
                items,
                #[trigger] tail[j],
                #[trigger] tail[l],
            ) by {
                assert(tail[j] == order[j + 1]);
                assert(tail[l] == order[l + 1]);
            }
        }
        lemma_insert_by_ratio_sorted(items, tail, k);
        let inner = insert_by_ratio(items, tail, k);
        // The head precedes everything inserted after it: the old entries by
        // sortedness, and `k` by totality, since `k` does not precede the head
        // and is not the head.
        assert(head != k) by {
            if head == k {
                assert(order.contains(k));
            }
        }
        lemma_comes_before_total(items, k, head);
        // A best-first order has no repeats: nothing precedes itself.
        assert(distinct_indices(tail)) by {
            assert forall|j: int, l: int| 0 <= j < l < tail.len() implies tail[j] != tail[l] by {
                assert(tail[j] == order[j + 1]);
                assert(tail[l] == order[l + 1]);
                assert(comes_before(items, order[j + 1], order[l + 1]));
            }
        }
        lemma_insert_by_ratio_props(items, tail, k);
        assert forall|j: int, l: int| 0 <= j < l < res.len() implies comes_before(
            items,
            #[trigger] res[j],
            #[trigger] res[l],
        ) by {
            if j == 0 {
                assert(res[l] == inner[l - 1]);
                assert(inner.contains(inner[l - 1]));
                if inner[l - 1] == k {
                    assert(comes_before(items, head, k));
                } else {
                    assert(tail.contains(inner[l - 1]));
                    let q = choose|q: int| 0 <= q < tail.len() && tail[q] == inner[l - 1];
                    assert(order[q + 1] == inner[l - 1]);
                }
            } else {
                assert(res[j] == inner[j - 1]);
                assert(res[l] == inner[l - 1]);
            }
        }
    }
}

/// The ratio order really is a descending sort: earlier entries strictly
/// precede later ones under `comes_before`.
pub proof fn lemma_ratio_order_sorted<T: Weight + Value>(items: Seq<T>, i: int)
    requires
        0 <= i,
    ensures
        sorted_by_ratio(items, ratio_order(items, i)),
    decreases i,
{
    if i > 0 {
        lemma_ratio_order_sorted(items, i - 1);
        lemma_ratio_order_perm(items, i - 1);
        lemma_insert_by_ratio_sorted(items, ratio_order(items, i - 1), i - 1);
    }
}

/// Inserting a fresh index grows the order by one, adds exactly that index to
/// its elements, and keeps the entries distinct.
proof fn lemma_insert_by_ratio_props<T: Weight + Value>(items: Seq<T>, order: Seq<int>, k: int)
    requires
        !order.contains(k),
        distinct_indices(order),
    ensures
        insert_by_ratio(items, order, k).len() == order.len() + 1,
        forall|x: int|
            insert_by_ratio(items, order, k).contains(x) <==> (order.contains(x) || x == k),
        distinct_indices(insert_by_ratio(items, order, k)),
    decreases order.len(),
{
    let res = insert_by_ratio(items, order, k);
    if order.len() == 0 {
        assert(res =~= seq![k]);
        assert forall|x: int| res.contains(x) <==> (order.contains(x) || x == k) by {
            if x == k {
                assert(res[0] == k);
                assert(res.contains(x));
            }
        }
    } else if comes_before(items, k, order[0]) {
        assert(res =~= seq![k] + order);
        assert forall|x: int| res.contains(x) <==> (order.contains(x) || x == k) by {
            if res.contains(x) {
                let j = choose|j: int| 0 <= j < res.len() && res[j] == x;
                if j == 0 {
                    assert(x == k);
                } else {
                    assert(order[j - 1] == x);
                    assert(order.contains(x));
                }
            }
            if x == k {
                assert(res[0] == k);
                assert(res.contains(x));
            }
            if order.contains(x) {
                let j = choose|j: int| 0 <= j < order.len() && order[j] == x;
                assert(res[j + 1] == x);
                assert(res.contains(x));
            }
        }
        assert forall|j: int, l: int| 0 <= j < l < res.len() implies res[j] != res[l] by {
            if j == 0 {
                assert(res[l] == order[l - 1]);
                assert(order.contains(order[l - 1]));
            }
        }
    } else {
        let head = order[0];
        let tail = order.drop_first();
        assert forall|x: int| tail.contains(x) implies order.contains(x) by {
            let j = choose|j: int| 0 <= j < tail.len() && tail[j] == x;
            assert(order[j + 1] == x);
        }
        assert(!tail.contains(k));
        assert(distinct_indices(tail)) by {
            assert forall|j: int, l: int| 0 <= j < l < tail.len() implies tail[j] != tail[l] by {
                assert(tail[j] == order[j + 1]);
                assert(tail[l] == order[l + 1]);
            }
        }
        lemma_insert_by_ratio_props(items, tail, k);
        let inner = insert_by_ratio(items, tail, k);
        assert(res =~= seq![head] + inner);
        assert(!inner.contains(head)) by {
            if tail.contains(head) {
                let j = choose|j: int| 0 <= j < tail.len() && tail[j] == head;
                assert(order[j + 1] == head);
                assert(order[0] == head);
            }
            if head == k {
                assert(order.contains(k));
            }
        }
        assert forall|x: int| res.contains(x) <==> (order.contains(x) || x == k) by {
            if res.contains(x) {
                let j = choose|j: int| 0 <= j < res.len() && res[j] == x;
                if j == 0 {
                    assert(order.contains(order[0]));
                } else {
                    assert(inner[j - 1] == x);
                    assert(inner.contains(x));
                    if tail.contains(x) {
                        let l = choose|l: int| 0 <= l < tail.len() && tail[l] == x;
                        assert(order[l + 1] == x);
                        assert(order.contains(x));
                    }
                }
            }
            if x == k {
                assert(inner.contains(x));
                let j = choose|j: int| 0 <= j < inner.len() && inner[j] == x;
                assert(res[j + 1] == x);
                assert(res.contains(x));
            }
            if order.contains(x) {
                let j = choose|j: int| 0 <= j < order.len() && order[j] == x;
                if j == 0 {
                    assert(res[0] == x);
                } else {
                    assert(tail[j - 1] == x);
                    assert(tail.contains(x));
                    assert(inner.contains(x));
                    let l = choose|l: int| 0 <= l < inner.len() && inner[l] == x;
                    assert(res[l + 1] == x);
                }
                assert(res.contains(x));
            }
        }
        assert forall|j: int, l: int| 0 <= j < l < res.len() implies res[j] != res[l] by {
            if j == 0 {
                assert(res[l] == inner[l - 1]);
                assert(inner.contains(inner[l - 1]));
            } else {
                assert(res[j] == inner[j - 1]);
                assert(res[l] == inner[l - 1]);
            }
        }
    }
}

/// The ratio order over the first `i` items is a permutation of `0..i`.
pub proof fn lemma_ratio_order_perm<T: Weight + Value>(items: Seq<T>, i: int)
    requires
        0 <= i,
    ensures
        ratio_order(items, i).len() == i,
        forall|x: int| ratio_order(items, i).contains(x) <==> 0 <= x < i,
        distinct_indices(ratio_order(items, i)),
        in_range(ratio_order(items, i), i),
    decreases i,
{
    if i > 0 {
        lemma_ratio_order_perm(items, i - 1);
        let prev = ratio_order(items, i - 1);
        assert(!prev.contains(i - 1));
        lemma_insert_by_ratio_props(items, prev, i - 1);
        let cur = ratio_order(items, i);
        assert(cur == insert_by_ratio(items, prev, i - 1));
        assert forall|x: int| cur.contains(x) <==> 0 <= x < i by {
            assert(cur.contains(x) <==> (prev.contains(x) || x == i - 1));
            assert(prev.contains(x) <==> 0 <= x < i - 1);
        }
        assert forall|j: int| 0 <= j < cur.len() implies 0 <= #[trigger] cur[j] < i by {
            assert(cur.contains(cur[j]));
        }
    }
}

/// The admission walk never exceeds the capacity it starts with.
pub proof fn lemma_admit_feasible<T: Weight + Value>(items: Seq<T>, order: Seq<int>, cap: int)
    requires
        cap >= 0,
    ensures
        sum_weight(items, admit_items(items, order, cap)) <= cap,
    decreases order.len(),
{
    if order.len() == 0 {
    } else {
        let k = order[0];
        let w = items[k].spec_weight() as int;
        let tail = order.drop_first();
        if w <= cap {
            lemma_admit_feasible(items, tail, cap - w);
            let rest = admit_items(items, tail, cap - w);
            lemma_sum_weight_concat(items, seq![k], rest);
            lemma_sum_weight_single(items, k);
        } else {
            lemma_admit_feasible(items, tail, cap);
        }
    }
}

/// The admission walk picks a sub-collection of the order it walks: every
/// admitted index comes from `order`, none is admitted twice, and all stay in
/// range.
pub proof fn lemma_admit_valid<T: Weight + Value>(
    items: Seq<T>,
    order: Seq<int>,
    cap: int,
    n: int,
)
    requires
        in_range(order, n),
        distinct_indices(order),
    ensures
        valid_selection(admit_items(items, order, cap), n),
        forall|x: int| admit_items(items, order, cap).contains(x) ==> order.contains(x),
    decreases order.len(),
{
    let res = admit_items(items, order, cap);
    if order.len() == 0 {
    } else {
        let k = order[0];
        let w = items[k].spec_weight() as int;
        let tail = order.drop_first();
        assert(in_range(tail, n) && distinct_indices(tail)) by {
            assert forall|j: int| 0 <= j < tail.len() implies 0 <= #[trigger] tail[j] < n by {
                assert(tail[j] == order[j + 1]);
            }
            assert forall|j: int, l: int| 0 <= j < l < tail.len() implies tail[j] != tail[l] by {
                assert(tail[j] == order[j + 1]);
                assert(tail[l] == order[l + 1]);
            }
        }
        assert forall|x: int| tail.contains(x) implies order.contains(x) by {
            let j = choose|j: int| 0 <= j < tail.len() && tail[j] == x;
            assert(order[j + 1] == x);
        }
        if w <= cap {
            lemma_admit_valid(items, tail, cap - w, n);
            let rest = admit_items(items, tail, cap - w);
            assert(res =~= seq![k] + rest);
            assert(!rest.contains(k)) by {
                if tail.contains(k) {
                    let j = choose|j: int| 0 <= j < tail.len() && tail[j] == k;
                    assert(order[j + 1] == k);
                    assert(order[0] == k);
                }
            }
            assert forall|x: int| res.contains(x) implies order.contains(x) by {
                let j = choose|j: int| 0 <= j < res.len() && res[j] == x;
                if j == 0 {
                    assert(order.contains(order[0]));
                } else {
                    assert(rest[j - 1] == x);
                    assert(rest.contains(x));
                }
            }
            assert forall|j: int, l: int| 0 <= j < l < res.len() implies res[j] != res[l] by {
                if j == 0 {
                    assert(res[l] == rest[l - 1]);
                    assert(rest.contains(rest[l - 1]));
                } else {
                    assert(res[j] == rest[j - 1]);
                    assert(res[l] == rest[l - 1]);
                }
            }
            assert forall|j: int| 0 <= j < res.len() implies 0 <= #[trigger] res[j] < n by {
                assert(res.contains(res[j]));
                assert(order.contains(res[j]));
                let l = choose|l: int| 0 <= l < order.len() && order[l] == res[j];
            }
        } else {
            lemma_admit_valid(items, tail, cap, n);
        }
    }
}

/// Degeneracy of the greedy solver: an empty item set or a non-positive
/// capacity yields the empty selection.
pub proof fn lemma_greedy_degenerate<T: Weight + Value>(items: Seq<T>, cap: int)
    ensures
        items.len() == 0 || cap <= 0 ==> greedy_selection(items, cap) == Seq::<int>::empty(),
{
}

/// Inserting `k` directly before the first entry it strictly precedes is the
/// same as splicing it in at that entry's position.
proof fn lemma_insert_position<T: Weight + Value>(items: Seq<T>, order: Seq<int>, k: int, p: int)
    requires
        0 <= p <= order.len(),
        forall|q: int| 0 <= q < p ==> !comes_before(items, k, #[trigger] order[q]),
        p < order.len() ==> comes_before(items, k, order[p]),
    ensures
        insert_by_ratio(items, order, k) == order.subrange(0, p) + seq![k] + order.subrange(
            p,
            order.len() as int,
        ),
    decreases p,
{
    if p == 0 {
        if order.len() == 0 {
            assert(insert_by_ratio(items, order, k) =~= order.subrange(0, 0) + seq![k]
                + order.subrange(0, 0));
        } else {
            assert(comes_before(items, k, order[0]));
            assert(seq![k] + order =~= order.subrange(0, 0) + seq![k] + order.subrange(
                0,
                order.len() as int,
            ));
        }
    } else {
        assert(!comes_before(items, k, order[0]));
        let tail = order.drop_first();
        assert forall|q: int| 0 <= q < p - 1 implies !comes_before(
            items,
            k,
            #[trigger] tail[q],
        ) by {
            assert(tail[q] == order[q + 1]);
        }
        if p - 1 < tail.len() {
            assert(tail[p - 1] == order[p]);
        }
        lemma_insert_position(items, tail, k, p - 1);
        assert(seq![order[0]] + (tail.subrange(0, p - 1) + seq![k] + tail.subrange(
            p - 1,
            tail.len() as int,
        )) =~= order.subrange(0, p) + seq![k] + order.subrange(p, order.len() as int));
    }
}

/// Feasibility and the 0/1 property of the greedy selection: its total weight
/// never exceeds the capacity, every index is a real input position, and no
/// index is selected twice.
pub proof fn lemma_greedy_selection_valid<T: Weight + Value>(items: Seq<T>, cap: int)
    requires
        cap >= 0,
    ensures
        sum_weight(items, greedy_selection(items, cap)) <= cap,
        valid_selection(greedy_selection(items, cap), items.len() as int),
{
    let n = items.len() as int;
    if items.len() == 0 || cap <= 0 {
    } else {
        lemma_ratio_order_perm(items, n);
        lemma_admit_feasible(items, ratio_order(items, n), cap);
        lemma_admit_valid(items, ratio_order(items, n), cap, n);
    }
}

/// A solver that yields items chosen by a greedy approximation for the
/// knapsack problem.
///
/// The greedy selection is computed eagerly at construction and then drained
/// one item per `next` call; once exhausted, every further pull keeps
/// returning `None`.
#[derive(Debug)]
pub struct GreedyKnapsackIterator<T: Weight + Value + Duplicable> {
    solution_items: Vec<T>,
    current_index: usize,
}

impl<T: Weight + Value + Duplicable> GreedyKnapsackIterator<T> {
    /// The selection this solver drains: the greedy choice over the items and
    /// capacity it was built from.
    pub closed spec fn solution(self) -> Seq<T> {
        self.solution_items@
    }

    /// How many items have been drained so far.
    pub closed spec fn cursor(self) -> int {
        self.current_index as int
    }

    /// Well-formedness: the cursor never runs past the selection.
    pub closed spec fn wf(self) -> bool {
        self.current_index <= self.solution_items@.len()
    }

    /// Decides whether item `a` strictly precedes item `b` in the greedy
    /// ranking; the executable mirror of `comes_before`.
    fn ratio_precedes(items: &Vec<T>, a: usize, b: usize) -> (r: bool)
        requires
            a < items@.len(),
            b < items@.len(),
        ensures
            r == comes_before(items@, a as int, b as int),
    {
        let wa = items[a].weight();
        let va = items[a].value();
        let wb = items[b].weight();
        let vb = items[b].value();
        let ra: u8 = if wa > 0 {
            1
        } else if va > 0 {
            2
        } else {
            0
        };
        let rb: u8 = if wb > 0 {
            1
        } else if vb > 0 {
            2
        } else {
            0
        };
        if ra != rb {
            ra > rb
        } else if ra == 2 {
            va > vb || (va == vb && a < b)
        } else if ra == 1 {
            proof {
                vstd::arithmetic::mul::lemma_mul_upper_bound(
                    va as int,
                    u64::MAX as int,
                    wb as int,
                    u64::MAX as int,
                );
                vstd::arithmetic::mul::lemma_mul_upper_bound(
                    vb as int,
                    u64::MAX as int,
                    wa as int,
                    u64::MAX as int,
                );
            }
            let left: u128 = (va as u128) * (wb as u128);
            let right: u128 = (vb as u128) * (wa as u128);
            left > right || (left == right && a < b)
        } else {
            a < b
        }
    }

    /// Computes the greedy selection: ranks the items by `comes_before` with
    /// an insertion pass, then admits whatever still fits, returning owned
    /// copies of the admitted items in admission order.
    fn calculate_greedy_items(items_list: &Vec<T>, capacity_val: usize) -> (r: Vec<T>)
        ensures
            r@ == items_at(items_list@, greedy_selection(items_list@, capacity_val as int)),
    {
        let n = items_list.len();
        let mut result_items: Vec<T> = Vec::new();
        if n == 0 || capacity_val == 0 {
            proof {
                assert(result_items@ =~= items_at(
                    items_list@,
                    greedy_selection(items_list@, capacity_val as int),
                ));
            }
            return result_items;
        }
        let mut order: Vec<usize> = Vec::new();
        let mut k: usize = 0;
        while k < n
            invariant
                k <= n,
                n == items_list@.len(),
                order@.map_values(|u: usize| u as int) == ratio_order(items_list@, k as int),
                order@.len() == k,
                forall|j: int| 0 <= j < order@.len() ==> #[trigger] order@[j] < n,
            decreases n - k,
        {
            let ghost gorder = order@.map_values(|u: usize| u as int);
            let mut p: usize = 0;
            loop
                invariant
                    p <= order@.len(),
                    k < n,
                    n == items_list@.len(),
                    gorder == order@.map_values(|u: usize| u as int),
                    forall|j: int| 0 <= j < order@.len() ==> #[trigger] order@[j] < n,
                    forall|q: int|
                        0 <= q < p ==> !comes_before(items_list@, k as int, #[trigger] gorder[q]),
                ensures
                    p <= gorder.len(),
                    forall|q: int|
                        0 <= q < p ==> !comes_before(items_list@, k as int, #[trigger] gorder[q]),
                    p < gorder.len() ==> comes_before(items_list@, k as int, gorder[p as int]),
                decreases order@.len() - p,
            {
                if p >= order.len() {
                    break ;
                }
                if Self::ratio_precedes(items_list, k, order[p]) {
                    proof {
                        assert(gorder[p as int] == order@[p as int] as int);
                    }
                    break ;
                }
                proof {
                    assert(gorder[p as int] == order@[p as int] as int);
                }
                p += 1;
            }
            proof {
                lemma_insert_position(items_list@, gorder, k as int, p as int);
            }
            let ghost pre_order = order@;
            order.insert(p, k);
            proof {
                pre_order.insert_ensures(p as int, k);
                assert(order@.map_values(|u: usize| u as int) =~= gorder.subrange(0, p as int)
                    + seq![k as int] + gorder.subrange(p as int, gorder.len() as int)) by {
                    assert forall|j: int| 0 <= j < order@.len() implies order@.map_values(
                        |u: usize| u as int,
                    )[j] == (gorder.subrange(0, p as int) + seq![k as int] + gorder.subrange(
                        p as int,
                        gorder.len() as int,
                    ))[j] by {
                        if j < p {
                            assert(order@[j] == pre_order[j]);
                        } else if j == p {
                            assert(order@[j] == k);
                        } else {
                            assert(order@[j] == pre_order[j - 1]);
                        }
                    }
                }
                assert(order@.map_values(|u: usize| u as int) == ratio_order(
                    items_list@,
                    (k + 1) as int,
                ));
                assert forall|j: int| 0 <= j < order@.len() implies #[trigger] order@[j] < n by {
                    if j < p {
                        assert(order@[j] == pre_order[j]);
                    } else if j == p {
                        assert(order@[j] == k);
                    } else {
                        assert(order@[j] == pre_order[j - 1]);
                    }
                }
            }
            k += 1;
        }
        let ghost total_order = order@.map_values(|u: usize| u as int);
        proof {
            assert(total_order == ratio_order(items_list@, n as int));
            assert(greedy_selection(items_list@, capacity_val as int) == admit_items(
                items_list@,
                total_order,
                capacity_val as int,
            ));
        }
        let mut remaining: usize = capacity_val;
        let mut j: usize = 0;
        let ghost mut gsel: Seq<int> = Seq::empty();
        proof {
            assert(total_order.skip(0) =~= total_order);
            assert(gsel + admit_items(items_list@, total_order, capacity_val as int)
                =~= admit_items(items_list@, total_order, capacity_val as int));
        }
        while j < order.len()
            invariant
                j <= order@.len(),
                n == items_list@.len(),
                total_order == order@.map_values(|u: usize| u as int),
                forall|l: int| 0 <= l < order@.len() ==> #[trigger] order@[l] < n,
                admit_items(items_list@, total_order, capacity_val as int) == gsel + admit_items(
                    items_list@,
                    total_order.skip(j as int),
                    remaining as int,
                ),
                result_items@ == items_at(items_list@, gsel),
            decreases order@.len() - j,
        {
            let idx = order[j];
            let item_weight = items_list[idx].weight();
            proof {
                assert(total_order.skip(j as int)[0] == total_order[j as int]);
                assert(total_order[j as int] == order@[j as int] as int);
                assert(total_order.skip(j as int).drop_first() =~= total_order.skip(j as int + 1));
            }
            if item_weight <= remaining {
                result_items.push(items_list[idx].duplicate());
                remaining -= item_weight;
                proof {
                    let pre_sel = gsel;
                    gsel = gsel.push(idx as int);
                    assert(admit_items(items_list@, total_order.skip(j as int), remaining as int
                        + item_weight as int) == seq![idx as int] + admit_items(
                        items_list@,
                        total_order.skip(j as int + 1),
                        remaining as int,
                    ));
                    assert(pre_sel + (seq![idx as int] + admit_items(
                        items_list@,
                        total_order.skip(j as int + 1),
                        remaining as int,
                    )) =~= gsel + admit_items(
                        items_list@,
                        total_order.skip(j as int + 1),
                        remaining as int,
                    ));
                    assert(result_items@ =~= items_at(items_list@, gsel));
                }
            }
            j += 1;
        }
        proof {
            assert(total_order.skip(order@.len() as int) =~= Seq::<int>::empty());
            assert(gsel + Seq::<int>::empty() =~= gsel);
            assert(gsel == admit_items(items_list@, total_order, capacity_val as int));
        }
        result_items
    }

    /// Creates a new `GreedyKnapsackIterator`.
    ///
    /// Computes the greedy selection for the given items and capacity at once
    /// and prepares to drain it.
    pub fn new(input_items: Vec<T>, capacity: usize) -> (r: Self)
        ensures
            r.wf(),
            r.cursor() == 0,
            r.solution() == items_at(input_items@, greedy_selection(input_items@, capacity as int)),
    {
        let solution_items = Self::calculate_greedy_items(&input_items, capacity);
        GreedyKnapsackIterator { solution_items, current_index: 0 }
    }

    /// Yields the next item of the greedy selection, or `None` once the
    /// selection is exhausted; exhausted solvers keep returning `None` and
    /// never move their cursor again.
    pub fn next(&mut self) -> (r: Option<T>)
        requires
            old(self).wf(),
        ensures
            final(self).wf(),
            final(self).solution() == old(self).solution(),
            old(self).cursor() < old(self).solution().len() ==> r == Some(
                old(self).solution()[old(self).cursor()],
            ) && final(self).cursor() == old(self).cursor() + 1,
            old(self).cursor() >= old(self).solution().len() ==> r is None && final(self).cursor()
                == old(self).cursor(),
    {
        if self.current_index < self.solution_items.len() {
            let item = self.solution_items[self.current_index].duplicate();
            self.current_index += 1;
            Some(item)
        } else {
            None
        }
    }

    /// Drains the rest of the selection and reports how many items were left.
    pub fn count(self) -> (n: usize)
        requires
            self.wf(),
        ensures
            n == self.solution().len() - self.cursor(),
    {
        self.solution_items.len() - self.current_index
    }
}

} // verus!
