//! `knap` solves the 0/1 knapsack problem two ways: an exact solver
//! (`optimal::KnapsackIterator`) that uses dynamic programming with explicit
//! reconstruction, and a fast approximate solver (`greedy::GreedyKnapsackIterator`)
//! that ranks items by value-to-weight ratio and admits whatever still fits.
//!
//! Items are any type implementing the `traits::Weight`, `traits::Value` and
//! `traits::Duplicable` capability traits. Both solvers capture their input at
//! construction and expose the selection as a finite, forward-only sequence
//! drained with `next`, with a `count` convenience that drains the rest.
//!
//! Every public operation carries a contract: the selections are pinned to
//! mathematical specifications (`optimal::exact_selection`,
//! `greedy::greedy_selection`), and the library proves feasibility (the chosen
//! weights never exceed the capacity), the 0/1 property (no input index is
//! chosen twice), and optimality of the exact solver among all subsets that
//! respect the capacity.

pub mod greedy;
pub mod item;
pub mod optimal;
pub mod selection;
pub mod traits;

pub use greedy::GreedyKnapsackIterator;
pub use item::Item;
pub use optimal::KnapsackIterator;
pub use traits::{Duplicable, ToGreedyKnapsackIterator, ToKnapsackIterator, Value, Weight};
