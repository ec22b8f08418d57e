use knap::traits::ToGreedyKnapsackIterator;
use knap::{GreedyKnapsackIterator, Item};

fn test_item(id: &str, weight: usize, value: usize) -> Item {
    Item::new(id.to_string(), weight, value)
}

#[test]
fn greedy_empty_items() {
    let items: Vec<Item> = Vec::new();
    let capacity = 10;
    let mut iter = GreedyKnapsackIterator::new(items.clone(), capacity);
    assert_eq!(iter.next(), None);

    let mut iter_ext = items.to_greedy_knapsack_iter(capacity);
    assert_eq!(iter_ext.next(), None);
}

#[test]
fn greedy_zero_capacity() {
    let items = vec![test_item("A", 10, 100)];
    let capacity = 0;
    let mut iter = GreedyKnapsackIterator::new(items.clone(), capacity);
    assert_eq!(iter.next(), None);

    let mut iter_ext = items.to_greedy_knapsack_iter(capacity);
    assert_eq!(iter_ext.next(), None);
}

#[test]
fn greedy_basic_selection() {
    let items = vec![
        test_item("A", 10, 60),
        test_item("B", 20, 100),
        test_item("C", 30, 120),
    ];
    let capacity = 50;
    let mut iter = GreedyKnapsackIterator::new(items.clone(), capacity);

    assert_eq!(iter.next(), Some(test_item("A", 10, 60)));
    assert_eq!(iter.next(), Some(test_item("B", 20, 100)));
    assert_eq!(iter.next(), None);

    let mut iter_ext = items.to_greedy_knapsack_iter(capacity);
    assert_eq!(iter_ext.next(), Some(test_item("A", 10, 60)));
    assert_eq!(iter_ext.next(), Some(test_item("B", 20, 100)));
    assert_eq!(iter_ext.next(), None);
}

#[test]
fn greedy_all_items_fit() {
    let items = vec![test_item("A", 10, 60), test_item("B", 20, 100)];
    let capacity = 30;
    let mut iter = GreedyKnapsackIterator::new(items.clone(), capacity);
    assert_eq!(iter.next(), Some(test_item("A", 10, 60)));
    assert_eq!(iter.next(), Some(test_item("B", 20, 100)));
    assert_eq!(iter.next(), None);
}

#[test]
fn greedy_no_items_fit() {
    let items = vec![test_item("A", 60, 100)];
    let capacity = 50;
    let mut iter = GreedyKnapsackIterator::new(items, capacity);
    assert_eq!(iter.next(), None);
}

#[test]
fn greedy_items_with_same_ratio_order_by_input() {
    let items = vec![
        test_item("A", 10, 100),
        test_item("B", 10, 100),
        test_item("C", 5, 40),
    ];
    let capacity = 15;
    let mut iter = GreedyKnapsackIterator::new(items, capacity);

    let mut results = vec![iter.next(), iter.next()];
    results.sort_by_key(|item| item.clone().map(|i| i.id));

    assert_eq!(results[0], Some(test_item("A", 10, 100)));
    assert_eq!(results[1], Some(test_item("C", 5, 40)));
    assert_eq!(iter.next(), None);
}

#[test]
fn greedy_item_with_zero_weight_positive_value() {
    let items = vec![test_item("FreeGood", 0, 1000), test_item("A", 10, 60)];
    let capacity = 10;
    let mut iter = GreedyKnapsackIterator::new(items, capacity);
    assert_eq!(iter.next(), Some(test_item("FreeGood", 0, 1000)));
    assert_eq!(iter.next(), Some(test_item("A", 10, 60)));
    assert_eq!(iter.next(), None);
}

#[test]
fn greedy_item_with_zero_weight_zero_value() {
    let items = vec![test_item("WorthlessFree", 0, 0), test_item("A", 10, 60)];

    let mut iter_cap10 = GreedyKnapsackIterator::new(items.clone(), 10);
    assert_eq!(iter_cap10.next(), Some(test_item("A", 10, 60)));
    assert_eq!(iter_cap10.next(), Some(test_item("WorthlessFree", 0, 0)));
    assert_eq!(iter_cap10.next(), None);

    let items_only_worthless = vec![test_item("WorthlessFree", 0, 0), test_item("Big", 100, 100)];
    let mut iter_small_cap = GreedyKnapsackIterator::new(items_only_worthless, 5);
    assert_eq!(iter_small_cap.next(), Some(test_item("WorthlessFree", 0, 0)));
    assert_eq!(iter_small_cap.next(), None);
}

#[test]
fn greedy_multiple_zero_weight_items() {
    let items = vec![
        test_item("A", 10, 10),
        test_item("Free1", 0, 100),
        test_item("Free2", 0, 200),
    ];
    let capacity = 10;
    let mut iter = GreedyKnapsackIterator::new(items, capacity);

    assert_eq!(iter.next(), Some(test_item("Free2", 0, 200)));
    assert_eq!(iter.next(), Some(test_item("Free1", 0, 100)));
    assert_eq!(iter.next(), Some(test_item("A", 10, 10)));
    assert_eq!(iter.next(), None);
}

#[test]
fn greedy_complex_case_with_zero_weights() {
    let items = vec![
        test_item("ItemA", 20, 100),
        test_item("ItemB", 30, 120),
        test_item("FreeValuable", 0, 50),
        test_item("ItemC", 10, 65),
        test_item("FreeWorthless", 0, 0),
    ];
    let capacity = 50;

    let mut iter = GreedyKnapsackIterator::new(items.clone(), capacity);

    assert_eq!(iter.next(), Some(test_item("FreeValuable", 0, 50)));
    assert_eq!(iter.next(), Some(test_item("ItemC", 10, 65)));
    assert_eq!(iter.next(), Some(test_item("ItemA", 20, 100)));
    assert_eq!(iter.next(), Some(test_item("FreeWorthless", 0, 0)));
    assert_eq!(iter.next(), None);

    let mut iter_ext = items.to_greedy_knapsack_iter(capacity);
    assert_eq!(iter_ext.next(), Some(test_item("FreeValuable", 0, 50)));
    assert_eq!(iter_ext.next(), Some(test_item("ItemC", 10, 65)));
    assert_eq!(iter_ext.next(), Some(test_item("ItemA", 20, 100)));
    assert_eq!(iter_ext.next(), Some(test_item("FreeWorthless", 0, 0)));
    assert_eq!(iter_ext.next(), None);
}
