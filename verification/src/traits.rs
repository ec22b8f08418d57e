//! Capability traits for knapsack items.
//!
//! A knapsack item is any type exposing a non-negative integer weight and a
//! non-negative integer value, together with the ability to hand out an
//! independent, equal copy of itself (so a solver can return owned copies
//! while the caller keeps the input collection).

use crate::greedy::{greedy_selection, GreedyKnapsackIterator};
use crate::optimal::KnapsackIterator;
use crate::selection::items_at;
use vstd::prelude::*;

verus! {

/// Behaviour of items that have a weight.
pub trait Weight {
    /// The item's weight as specifications see it.
    spec fn spec_weight(&self) -> usize;

    /// Returns the weight of the item, a non-negative integer.
    fn weight(&self) -> (w: usize)
        ensures
            w == self.spec_weight(),
    ;
}

/// Behaviour of items that have a value.
pub trait Value {
    /// The item's value as specifications see it.
    spec fn spec_value(&self) -> usize;

    /// Returns the value of the item, a non-negative integer.
    fn value(&self) -> (v: usize)
        ensures
            v == self.spec_value(),
    ;
}

/// Behaviour of items that can be duplicated.
///
/// A solver returns owned copies of the selected items, so the input
/// collection and the result sequence can coexist; the copy must be equal to
/// the original.
pub trait Duplicable: Sized {
    /// Returns an independent copy equal to this item.
    fn duplicate(&self) -> (d: Self)
        ensures
            d == *self,
    ;
}

/// An extension trait to convert an item collection directly into a
/// `KnapsackIterator`, equivalent to constructing the solver by hand.
pub trait ToKnapsackIterator<T: Weight + Value + Duplicable>: Sized {
    /// The items this collection contributes, in order.
    spec fn spec_items(self) -> Seq<T>;

    /// Converts this collection into a `KnapsackIterator` with the given
    /// capacity, ready to compute the optimal selection on the first pull.
    fn to_knapsack_iter(self, capacity: usize) -> (it: KnapsackIterator<T>)
        requires
            self.spec_items().len() < usize::MAX,
            capacity < usize::MAX,
        ensures
            it.wf(),
            it.items() == self.spec_items(),
            it.capacity() == capacity,
            it.cursor() == 0,
            !it.is_computed(),
    ;
}

impl<T: Weight + Value + Duplicable> ToKnapsackIterator<T> for Vec<T> {
    open spec fn spec_items(self) -> Seq<T> {
        self@
    }

    fn to_knapsack_iter(self, capacity: usize) -> (it: KnapsackIterator<T>) {
        KnapsackIterator::new(self, capacity)
    }
}

/// An extension trait to convert an item collection directly into a
/// `GreedyKnapsackIterator`, equivalent to constructing the solver by hand.
pub trait ToGreedyKnapsackIterator<T: Weight + Value + Duplicable>: Sized {
    /// The items this collection contributes, in order.
    spec fn spec_items(self) -> Seq<T>;

    /// Converts this collection into a `GreedyKnapsackIterator` with the
    /// given capacity, holding the eagerly computed greedy selection.
    fn to_greedy_knapsack_iter(self, capacity: usize) -> (it: GreedyKnapsackIterator<T>)
        ensures
            it.wf(),
            it.cursor() == 0,
            it.solution() == items_at(
                self.spec_items(),
                greedy_selection(self.spec_items(), capacity as int),
            ),
    ;
}

impl<T: Weight + Value + Duplicable> ToGreedyKnapsackIterator<T> for Vec<T> {
    open spec fn spec_items(self) -> Seq<T> {
        self@
    }

    fn to_greedy_knapsack_iter(self, capacity: usize) -> (it: GreedyKnapsackIterator<T>) {
        GreedyKnapsackIterator::new(self, capacity)
    }
}

} // verus!
