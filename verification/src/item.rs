//! A ready-made item type carrying an identifier, a weight and a value.

use crate::traits::{Duplicable, Value, Weight};
use vstd::prelude::*;

verus! {

/// A simple knapsack item: an identifier plus a non-negative weight and value.
///
/// Any type implementing `Weight`, `Value` and `Duplicable` can be solved
/// over; this struct is the ready-made choice for callers that do not bring
/// their own.
#[derive(Debug, Clone, PartialEq, Eq, Hash)]
pub struct Item {
    pub id: String,
    pub weight: usize,
    pub value: usize,
}

impl Item {
    /// Builds an item from its identifier, weight and value.
    pub fn new(id: String, weight: usize, value: usize) -> (r: Item)
        ensures
            r == (Item { id, weight, value }),
    {
        Item { id, weight, value }
    }
}

impl Weight for Item {
    open spec fn spec_weight(&self) -> usize {
        self.weight
    }

    fn weight(&self) -> (w: usize) {
        self.weight
    }
}

impl Value for Item {
    open spec fn spec_value(&self) -> usize {
        self.value
    }

    fn value(&self) -> (v: usize) {
        self.value
    }
}

impl Duplicable for Item {
    fn duplicate(&self) -> (d: Self) {
        Item { id: self.id.clone(), weight: self.weight, value: self.value }
    }
}

} // verus!
