//! The exact dynamic-programming solver.
//!
//! `max_value` is the classic 0/1 knapsack recurrence: the best total value
//! achievable with a prefix of the items under a weight budget. `dp_select`
//! is the reconstruction walk over that recurrence, taking an item exactly
//! when taking it was strictly better — so ties favour leaving the
//! later-considered item out. The solver computes both with an explicit
//! table, once, on the first pull.

use crate::selection::{
    distinct_indices, in_range, items_at, lemma_sum_remove, lemma_sum_weight_nonneg,
    strictly_increasing, sum_value, sum_weight, valid_selection,
};
use crate::traits::{Duplicable, Value, Weight};
use vstd::prelude::*;

verus! {

/// The best total value achievable with the first `i` items under weight
/// budget `w`.
pub open spec fn max_value<T: Weight + Value>(items: Seq<T>, i: int, w: int) -> int
    decreases i,
{
    if i <= 0 {
        0
    } else {
        let wt = items[i - 1].spec_weight() as int;
        let v = items[i - 1].spec_value() as int;
        let without = max_value(items, i - 1, w);
        if wt > w {
            without
        } else {
            let with = max_value(items, i - 1, w - wt) + v;
            if with > without {
                with
            } else {
                without
            }
        }
    }
}

/// The selection the reconstruction walk recovers from the recurrence, in
/// ascending index order: item `i - 1` is taken exactly when the best value
/// over the first `i` items differs from the best without it, i.e. only when
/// taking it was strictly better.
pub open spec fn dp_select<T: Weight + Value>(items: Seq<T>, i: int, w: int) -> Seq<int>
    decreases i,
{
    if i <= 0 {
        Seq::empty()
    } else {
        let wt = items[i - 1].spec_weight() as int;
        if w >= wt && max_value(items, i, w) != max_value(items, i - 1, w) {
            dp_select(items, i - 1, w - wt).push(i - 1)
        } else {
            dp_select(items, i - 1, w)
        }
    }
}

/// The exact solver's selection: the reconstruction walk over all items,
/// except that an empty item set or a zero capacity short-circuits to the
/// empty selection before any table is built.
pub open spec fn exact_selection<T: Weight + Value>(items: Seq<T>, cap: int) -> Seq<int> {
    if items.len() == 0 || cap <= 0 {
        Seq::empty()
    } else {
        dp_select(items, items.len() as int, cap)
    }
}

/// The total value of the first `i` items, whether selected or not; it bounds
/// everything the recurrence can produce.
pub open spec fn total_value_prefix<T: Value>(items: Seq<T>, i: int) -> int
    decreases i,
{
    if i <= 0 {
        0
    } else {
        total_value_prefix(items, i - 1) + items[i - 1].spec_value()
    }
}

/// The reconstruction walk recovers a well-formed selection that stays within
/// the weight budget and achieves exactly the value of the recurrence.
pub proof fn lemma_dp_select_achieves<T: Weight + Value>(items: Seq<T>, i: int, w: int)
    requires
        0 <= i,
        0 <= w,
    ensures
        in_range(dp_select(items, i, w), i),
        strictly_increasing(dp_select(items, i, w)),
        sum_weight(items, dp_select(items, i, w)) <= w,
        sum_value(items, dp_select(items, i, w)) == max_value(items, i, w),
    decreases i,
{
    if i > 0 {
        let wt = items[i - 1].spec_weight() as int;
        let v = items[i - 1].spec_value() as int;
        let sel = dp_select(items, i, w);
        if w >= wt && max_value(items, i, w) != max_value(items, i - 1, w) {
            lemma_dp_select_achieves(items, i - 1, w - wt);
            let sub = dp_select(items, i - 1, w - wt);
            assert(sel == sub.push(i - 1));
            assert(sel.drop_last() =~= sub);
            assert(sel.last() == i - 1);
            assert(max_value(items, i, w) == max_value(items, i - 1, w - wt) + v);
            assert forall|a: int| 0 <= a < sel.len() implies 0 <= #[trigger] sel[a] < i by {
                if a < sel.len() - 1 {
                    assert(sel[a] == sub[a]);
                }
            }
            assert forall|a: int, b: int| 0 <= a < b < sel.len() implies sel[a] < sel[b] by {
                assert(sel[a] == sub[a]);
                if b < sel.len() - 1 {
                    assert(sel[b] == sub[b]);
                }
            }
        } else {
            lemma_dp_select_achieves(items, i - 1, w);
            assert(max_value(items, i, w) == max_value(items, i - 1, w));
        }
    }
}

/// Optimality of the recurrence: no well-formed selection of the first `i`
/// items that stays within the budget is worth more than `max_value`.
pub proof fn lemma_max_value_optimal<T: Weight + Value>(
    items: Seq<T>,
    i: int,
    w: int,
    sel: Seq<int>,
)
    requires
        0 <= i,
        0 <= w,
        in_range(sel, i),
        distinct_indices(sel),
        sum_weight(items, sel) <= w,
    ensures
        sum_value(items, sel) <= max_value(items, i, w),
    decreases i,
{
    if i <= 0 {
        if sel.len() > 0 {
            assert(0 <= sel[0] < 0);
        }
    } else {
        let wt = items[i - 1].spec_weight() as int;
        let v = items[i - 1].spec_value() as int;
        if sel.contains(i - 1) {
            let pos = choose|pos: int| 0 <= pos < sel.len() && sel[pos] == i - 1;
            let rest = sel.remove(pos);
            sel.remove_ensures(pos);
            lemma_sum_remove(items, sel, pos);
            assert(in_range(rest, i - 1) && distinct_indices(rest)) by {
                assert forall|j: int| 0 <= j < rest.len() implies 0 <= #[trigger] rest[j] < i
                    - 1 by {
                    if j < pos {
                        assert(rest[j] == sel[j]);
                        assert(sel[j] != sel[pos]);
                    } else {
                        assert(rest[j] == sel[j + 1]);
                        assert(sel[j + 1] != sel[pos]);
                    }
                }
                assert forall|j: int, l: int| 0 <= j < l < rest.len() implies rest[j]
                    != rest[l] by {
                    if j < pos {
                        assert(rest[j] == sel[j]);
                    } else {
                        assert(rest[j] == sel[j + 1]);
                    }
                    if l < pos {
                        assert(rest[l] == sel[l]);
                    } else {
                        assert(rest[l] == sel[l + 1]);
                    }
                }
            }
            lemma_sum_weight_nonneg(items, rest);
            assert(wt <= w);
            lemma_max_value_optimal(items, i - 1, w - wt, rest);
            assert(max_value(items, i, w) >= max_value(items, i - 1, w - wt) + v);
        } else {
            assert(in_range(sel, i - 1)) by {
                assert forall|j: int| 0 <= j < sel.len() implies 0 <= #[trigger] sel[j] < i
                    - 1 by {
                    if sel[j] == i - 1 {
                        assert(sel.contains(i - 1));
                    }
                }
            }
            lemma_max_value_optimal(items, i - 1, w, sel);
            assert(max_value(items, i, w) >= max_value(items, i - 1, w));
        }
    }
}

/// Degeneracy of the exact solver: an empty item set or a non-positive
/// capacity yields the empty selection.
pub proof fn lemma_exact_degenerate<T: Weight + Value>(items: Seq<T>, cap: int)
    ensures
        items.len() == 0 || cap <= 0 ==> exact_selection(items, cap) == Seq::<int>::empty(),
{
}

/// Feasibility and the 0/1 property of the exact selection: its total weight
/// never exceeds the capacity, every index is a real input position in
/// ascending order, and no index is selected twice.
pub proof fn lemma_exact_selection_valid<T: Weight + Value>(items: Seq<T>, cap: int)
    requires
        cap >= 0,
    ensures
        sum_weight(items, exact_selection(items, cap)) <= cap,
        valid_selection(exact_selection(items, cap), items.len() as int),
        strictly_increasing(exact_selection(items, cap)),
{
    let sel = exact_selection(items, cap);
    if items.len() == 0 || cap <= 0 {
    } else {
        lemma_dp_select_achieves(items, items.len() as int, cap);
        assert forall|j: int, l: int| 0 <= j < l < sel.len() implies sel[j] != sel[l] by {
            assert(sel[j] < sel[l]);
        }
    }
}

/// Optimality of the exact solver: for a positive capacity, no well-formed
/// subset of the items whose total weight stays within the capacity is worth
/// more than the exact selection. (With capacity zero the solver
/// short-circuits to the empty selection, which a zero-weight item of
/// positive value would beat, so that case is excluded here; degeneracy pins
/// it instead.)
pub proof fn lemma_exact_selection_optimal<T: Weight + Value>(
    items: Seq<T>,
    cap: int,
    sel: Seq<int>,
)
    requires
        cap >= 1,
        valid_selection(sel, items.len() as int),
        sum_weight(items, sel) <= cap,
    ensures
        sum_value(items, sel) <= sum_value(items, exact_selection(items, cap)),
{
    if items.len() == 0 {
        if sel.len() > 0 {
            assert(0 <= sel[0] < 0);
        }
    } else {
        let n = items.len() as int;
        lemma_dp_select_achieves(items, n, cap);
        lemma_max_value_optimal(items, n, cap, sel);
    }
}

/// The greedy approximation never beats the exact solver: for a positive
/// capacity, the greedy selection's total value is at most the exact
/// selection's. (It can fall strictly short, as the divergence between the
/// two solvers' tests shows.)
pub proof fn lemma_exact_at_least_greedy<T: Weight + Value>(items: Seq<T>, cap: int)
    requires
        cap >= 1,
    ensures
        sum_value(items, crate::greedy::greedy_selection(items, cap)) <= sum_value(
            items,
            exact_selection(items, cap),
        ),
{
    crate::greedy::lemma_greedy_selection_valid(items, cap);
    lemma_exact_selection_optimal(items, cap, crate::greedy::greedy_selection(items, cap));
}

/// The recurrence never exceeds the total value of the items it may use.
proof fn lemma_max_value_le_total<T: Weight + Value>(items: Seq<T>, i: int, w: int)
    requires
        0 <= i,
    ensures
        0 <= max_value(items, i, w) <= total_value_prefix(items, i),
    decreases i,
{
    if i > 0 {
        lemma_max_value_le_total(items, i - 1, w);
        let wt = items[i - 1].spec_weight() as int;
        if wt <= w {
            lemma_max_value_le_total(items, i - 1, w - wt);
        }
    }
}

/// The total value of `i` items is at most `i` times the largest value an
/// item can carry.
proof fn lemma_total_value_prefix_bound<T: Value>(items: Seq<T>, i: int)
    requires
        0 <= i,
    ensures
        total_value_prefix(items, i) <= i * (usize::MAX as int),
    decreases i,
{
    if i > 0 {
        lemma_total_value_prefix_bound(items, i - 1);
        assert((i - 1) * (usize::MAX as int) + (usize::MAX as int) == i * (usize::MAX as int))
            by (nonlinear_arith);
    }
}

/// Every value of the recurrence fits comfortably below the square of the
/// largest machine word, and so in the table's cell type.
proof fn lemma_max_value_fits<T: Weight + Value>(items: Seq<T>, i: int, w: int)
    requires
        0 <= i <= u64::MAX as int,
    ensures
        0 <= max_value(items, i, w) <= (u64::MAX as int) * (u64::MAX as int),
{
    lemma_max_value_le_total(items, i, w);
    lemma_total_value_prefix_bound(items, i);
    vstd::arithmetic::mul::lemma_mul_upper_bound(
        i,
        u64::MAX as int,
        usize::MAX as int,
        u64::MAX as int,
    );
}

/// A solver that yields the items of an optimal knapsack selection.
///
/// The input is captured at construction; the table is built and the
/// selection reconstructed once, on the first pull (or `count`), and the
/// memoized selection is then drained one item per `next` call. Once
/// exhausted, every further pull keeps returning `None`.
///
/// The table takes space proportional to the item count times the capacity:
/// bounding the capacity before construction is the caller's job.
#[derive(Debug)]
pub struct KnapsackIterator<T: Weight + Value + Duplicable> {
    items: Vec<T>,
    capacity: usize,
    optimal_solution_items: Vec<T>,
    current_index: usize,
    // Ensures the table is built only once.
    computed: bool,
}

impl<T: Weight + Value + Duplicable> KnapsackIterator<T> {
    /// The items this solver selects from.
    pub closed spec fn items(self) -> Seq<T> {
        self.items@
    }

    /// The capacity this solver was built with.
    pub closed spec fn capacity(self) -> usize {
        self.capacity
    }

    /// How many items have been drained so far.
    pub closed spec fn cursor(self) -> int {
        self.current_index as int
    }

    /// Whether the one-time computation has run.
    pub closed spec fn is_computed(self) -> bool {
        self.computed
    }

    /// Well-formedness: the memoized selection, once computed, is exactly the
    /// items of `exact_selection`, and the cursor never runs past it.
    pub closed spec fn wf(self) -> bool {
        &&& self.items@.len() < usize::MAX
        &&& self.capacity < usize::MAX
        &&& self.current_index <= self.optimal_solution_items@.len()
        &&& (self.computed ==> self.optimal_solution_items@ == items_at(
            self.items@,
            exact_selection(self.items@, self.capacity as int),
        ))
        &&& (!self.computed ==> self.optimal_solution_items@ == Seq::<T>::empty()
            && self.current_index == 0)
    }

    /// Creates a new `KnapsackIterator` over the given items and capacity.
    ///
    /// Nothing is computed yet; the first pull triggers the one-time solve.
    /// The bounds keep the table's row count and row length representable,
    /// as its dimensions are one more than the item count and the capacity.
    pub fn new(input_items: Vec<T>, capacity: usize) -> (r: Self)
        requires
            input_items@.len() < usize::MAX,
            capacity < usize::MAX,
        ensures
            r.wf(),
            r.items() == input_items@,
            r.capacity() == capacity,
            r.cursor() == 0,
            !r.is_computed(),
    {
        KnapsackIterator {
            items: input_items,
            capacity,
            optimal_solution_items: Vec::new(),
            current_index: 0,
            computed: false,
        }
    }

    /// Runs the one-time dynamic program and memoizes the reconstructed
    /// selection; on a solver that has already computed, does nothing.
    #[verifier::loop_isolation(false)]
    fn compute_solution(&mut self)
        requires
            old(self).wf(),
        ensures
            final(self).wf(),
            final(self).items() == old(self).items(),
            final(self).capacity() == old(self).capacity(),
            final(self).cursor() == old(self).cursor(),
            final(self).is_computed(),
    {
        if self.computed {
            return ;
        }
        let ghost iseq = self.items@;
        let n = self.items.len();
        let cap = self.capacity;
        if n == 0 || cap == 0 {
            self.computed = true;
            proof {
                assert(items_at(iseq, exact_selection(iseq, cap as int)) =~= Seq::<T>::empty());
            }
            return ;
        }
        let items_ref = &self.items;

        // The table: row `r`, cell `w` holds the best value over the first
        // `r` items under budget `w`.
        let mut row0: Vec<u128> = Vec::new();
        while row0.len() <= cap
            invariant
                row0@.len() <= cap + 1,
                forall|w: int| 0 <= w < row0@.len() ==> #[trigger] row0@[w] as int == 0,
            decreases cap + 1 - row0@.len(),
        {
            row0.push(0);
        }
        let mut dp: Vec<Vec<u128>> = Vec::new();
        dp.push(row0);
        while dp.len() <= n
            invariant
                1 <= dp@.len() <= n + 1,
                forall|r: int| 0 <= r < dp@.len() ==> #[trigger] dp@[r]@.len() == cap + 1,
                forall|r: int, w: int|
                    0 <= r < dp@.len() && 0 <= w <= cap ==> #[trigger] dp@[r]@[w] as int
                        == max_value(iseq, r, w),
            decreases n + 1 - dp@.len(),
        {
            let k = dp.len();
            let item_weight = items_ref[k - 1].weight();
            let item_value = items_ref[k - 1].value();
            let mut row: Vec<u128> = Vec::new();
            while row.len() <= cap
                invariant
                    row@.len() <= cap + 1,
                    forall|w: int|
                        0 <= w < row@.len() ==> #[trigger] row@[w] as int == max_value(
                            iseq,
                            k as int,
                            w,
                        ),
                decreases cap + 1 - row@.len(),
            {
                let w = row.len();
                let prev = &dp[k - 1];
                let without: u128 = prev[w];
                let cell: u128;
                if item_weight <= w {
                    proof {
                        lemma_max_value_fits(iseq, k as int - 1, w as int - item_weight as int);
                    }
                    let with_item: u128 = prev[w - item_weight] + (item_value as u128);
                    cell = if with_item > without {
                        with_item
                    } else {
                        without
                    };
                } else {
                    cell = without;
                }
                row.push(cell);
            }
            dp.push(row);
        }

        // Reconstruction: walk the rows from the last item down, taking an
        // item exactly when its row differs from the one above, and collect
        // the taken items (they come out in descending index order).
        let mut chosen_rev: Vec<T> = Vec::new();
        let ghost mut picked: Seq<int> = Seq::empty();
        let mut i: usize = n;
        let mut cur_w: usize = cap;
        proof {
            assert(dp_select(iseq, n as int, cap as int) =~= dp_select(iseq, i as int, cur_w as int)
                + picked);
        }
        while i > 0
            invariant
                i <= n,
                cur_w <= cap,
                dp_select(iseq, n as int, cap as int) == dp_select(iseq, i as int, cur_w as int)
                    + picked,
                chosen_rev@.len() == picked.len(),
                forall|j: int|
                    0 <= j < picked.len() ==> #[trigger] chosen_rev@[j] == iseq[picked[picked.len()
                        - 1 - j]],
            decreases i,
        {
            let item_weight = items_ref[i - 1].weight();
            let take: bool;
            if cur_w >= item_weight {
                let row_with = &dp[i];
                let row_without = &dp[i - 1];
                take = row_with[cur_w] != row_without[cur_w];
            } else {
                take = false;
            }
            proof {
                assert(take == (cur_w as int >= item_weight as int && max_value(
                    iseq,
                    i as int,
                    cur_w as int,
                ) != max_value(iseq, i as int - 1, cur_w as int)));
            }
            if take {
                chosen_rev.push(items_ref[i - 1].duplicate());
                cur_w -= item_weight;
                proof {
                    let pre_picked = picked;
                    picked = seq![i as int - 1] + picked;
                    assert(dp_select(iseq, i as int, cur_w as int + item_weight as int)
                        == dp_select(iseq, i as int - 1, cur_w as int).push(i as int - 1));
                    assert(dp_select(iseq, i as int - 1, cur_w as int).push(i as int - 1)
                        + pre_picked =~= dp_select(iseq, i as int - 1, cur_w as int) + picked);
                    assert forall|j: int| 0 <= j < picked.len() implies #[trigger] chosen_rev@[j]
                        == iseq[picked[picked.len() - 1 - j]] by {
                        if j < picked.len() - 1 {
                            assert(picked[picked.len() - 1 - j] == pre_picked[pre_picked.len() - 1
                                - j]);
                        } else {
                            assert(picked[0] == i as int - 1);
                        }
                    }
                }
            } else {
                proof {
                    assert(dp_select(iseq, i as int, cur_w as int) == dp_select(
                        iseq,
                        i as int - 1,
                        cur_w as int,
                    ));
                }
            }
            i -= 1;
        }
        proof {
            assert(dp_select(iseq, 0, cur_w as int) + picked =~= picked);
            assert(picked == dp_select(iseq, n as int, cap as int));
        }

        // The walk collected the selection backwards; reverse it into
        // ascending input order.
        let mut solution: Vec<T> = Vec::new();
        while chosen_rev.len() > 0
            invariant
                chosen_rev@.len() + solution@.len() == picked.len(),
                forall|j: int|
                    0 <= j < solution@.len() ==> #[trigger] solution@[j] == iseq[picked[j]],
                forall|j: int|
                    0 <= j < chosen_rev@.len() ==> #[trigger] chosen_rev@[j]
                        == iseq[picked[picked.len() - 1 - j]],
            decreases chosen_rev@.len(),
        {
            let item = chosen_rev.pop().unwrap();
            solution.push(item);
        }
        self.optimal_solution_items = solution;
        self.computed = true;
        proof {
            assert(self.optimal_solution_items@ =~= items_at(
                iseq,
                exact_selection(iseq, cap as int),
            ));
        }
    }

    /// Yields the next item of the optimal selection, or `None` once the
    /// selection is exhausted; exhausted solvers keep returning `None` and
    /// never move their cursor again. The first pull triggers the one-time
    /// computation.
    pub fn next(&mut self) -> (r: Option<T>)
        requires
            old(self).wf(),
        ensures
            final(self).wf(),
            final(self).items() == old(self).items(),
            final(self).capacity() == old(self).capacity(),
            final(self).is_computed(),
            ({
                let sel = exact_selection(old(self).items(), old(self).capacity() as int);
                &&& old(self).cursor() < sel.len() ==> r == Some(
                    old(self).items()[sel[old(self).cursor()]],
                ) && final(self).cursor() == old(self).cursor() + 1
                &&& old(self).cursor() >= sel.len() ==> r is None && final(self).cursor() == old(
                    self,
                ).cursor()
            }),
    {
        if !self.computed {
            self.compute_solution();
        }
        if self.current_index < self.optimal_solution_items.len() {
            let item = self.optimal_solution_items[self.current_index].duplicate();
            self.current_index += 1;
            Some(item)
        } else {
            None
        }
    }

    /// Drains the rest of the selection and reports how many items were left,
    /// triggering the one-time computation if it has not run yet.
    pub fn count(self) -> (n: usize)
        requires
            self.wf(),
        ensures
            n == exact_selection(self.items(), self.capacity() as int).len() - self.cursor(),
    {
        let mut it = self;
        if !it.computed {
            it.compute_solution();
        }
        it.optimal_solution_items.len() - it.current_index
    }
}

} // verus!
