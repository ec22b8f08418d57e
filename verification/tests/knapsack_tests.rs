use knap::traits::ToKnapsackIterator;
use knap::Item;

fn item(id: &str, weight: usize, value: usize) -> Item {
    Item::new(id.to_string(), weight, value)
}

#[test]
fn test_basic() {
    let items = vec![
        item("item1", 2, 3),
        item("item2", 3, 4),
        item("item3", 4, 5),
        item("item4", 5, 6),
    ];
    let capacity = 7;

    let mut knapsack_iter = items.clone().to_knapsack_iter(capacity);
    let mut total_weight = 0;
    let mut total_value = 0;
    let mut selected_ids = Vec::new();
    while let Some(item) = knapsack_iter.next() {
        total_weight += item.weight;
        total_value += item.value;
        selected_ids.push(item.id);
    }
    println!("Total weight of selected items: {}", total_weight);
    assert_eq!(total_weight, 7);
    assert_eq!(total_value, 9);
    assert!(selected_ids.contains(&"item2".to_string()));
    assert!(selected_ids.contains(&"item3".to_string()));
    assert_eq!(selected_ids.len(), 2);
}

#[test]
fn test_empty_items() {
    let empty_items: Vec<Item> = Vec::new();
    let knapsack_iter_empty = empty_items.to_knapsack_iter(10);
    assert_eq!(
        knapsack_iter_empty.count(),
        0,
        "Empty items should yield 0 selected items."
    );
}

#[test]
fn test_zero_capacity() {
    let items_for_zero_cap = vec![item("itemA", 1, 10)];
    let knapsack_iter_zero_cap = items_for_zero_cap.to_knapsack_iter(0);
    assert_eq!(
        knapsack_iter_zero_cap.count(),
        0,
        "Zero capacity should yield 0 selected items."
    );
}

#[test]
fn test_items_too_heavy() {
    let items_too_heavy = vec![item("heavy1", 10, 100), item("heavy2", 12, 120)];
    let knapsack_iter_heavy = items_too_heavy.clone().to_knapsack_iter(5);
    assert_eq!(
        knapsack_iter_heavy.count(),
        0,
        "All items too heavy should yield 0 selected items."
    );
}

#[test]
fn test_complex() {
    let items = vec![item("A", 10, 60), item("B", 20, 100), item("C", 30, 120)];
    let capacity = 50;
    let mut knapsack_iter = items.clone().to_knapsack_iter(capacity);
    let mut total_weight = 0;
    let mut total_value = 0;
    let mut selected_ids = Vec::new();
    while let Some(item) = knapsack_iter.next() {
        total_weight += item.weight;
        total_value += item.value;
        selected_ids.push(item.id.clone());
    }
    assert_eq!(total_value, 220, "Value for complex case is incorrect.");
    assert_eq!(total_weight, 50, "Weight for complex case is incorrect.");
    assert!(
        selected_ids.contains(&"B".to_string()),
        "Item B should be selected."
    );
    assert!(
        selected_ids.contains(&"C".to_string()),
        "Item C should be selected."
    );
    assert_eq!(
        selected_ids.len(),
        2,
        "Incorrect number of items selected for complex case."
    );
}

#[test]
fn test_zero_value_item() {
    let items = vec![item("valuable", 5, 10), item("zero_val", 2, 0)];
    let capacity = 7;
    let mut knapsack_iter = items.clone().to_knapsack_iter(capacity);
    let mut total_weight = 0;
    let mut total_value = 0;
    let mut selected_ids = Vec::new();
    while let Some(item) = knapsack_iter.next() {
        total_weight += item.weight;
        total_value += item.value;
        selected_ids.push(item.id.clone());
    }
    assert_eq!(total_value, 10);
    assert_eq!(total_weight, 5);
    assert!(selected_ids.contains(&"valuable".to_string()));
    assert_eq!(selected_ids.len(), 1);
}
