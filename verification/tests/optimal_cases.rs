use knap::traits::{Value, Weight};
use knap::{Item, KnapsackIterator};

fn item(id: &str, weight: usize, value: usize) -> Item {
    Item::new(id.to_string(), weight, value)
}

#[test]
fn test_case_1_basic() {
    let items1 = vec![
        item("item1", 2, 3),
        item("item2", 3, 4),
        item("item3", 4, 5),
        item("item4", 5, 6),
    ];
    let capacity1 = 7;

    println!("Items available (Test Case 1):");
    for item in &items1 {
        println!(
            "  id: {}, weight: {}, value: {}",
            item.id,
            item.weight(),
            item.value()
        );
    }
    println!("Knapsack capacity: {}", capacity1);

    let mut knapsack_iter1 = KnapsackIterator::new(items1.clone(), capacity1);
    println!("\nOptimal items in knapsack (Test Case 1):");
    let mut total_weight1 = 0;
    let mut total_value1 = 0;
    let mut selected_ids1 = Vec::new();
    while let Some(item) = knapsack_iter1.next() {
        println!(
            "  id: {}, weight: {}, value: {}",
            item.id,
            item.weight(),
            item.value()
        );
        total_weight1 += item.weight();
        total_value1 += item.value();
        selected_ids1.push(item.id);
    }
    println!("\nTotal weight of selected items: {}", total_weight1);
    println!("Total value of selected items: {}", total_value1);
    assert_eq!(total_weight1, 7);
    assert_eq!(total_value1, 9);
    assert!(selected_ids1.contains(&"item2".to_string()));
    assert!(selected_ids1.contains(&"item3".to_string()));
}

#[test]
fn test_case_2_empty_items() {
    let empty_items: Vec<Item> = Vec::new();
    let knapsack_iter_empty = KnapsackIterator::new(empty_items, 10);
    println!("\nTesting with empty items (Test Case 2):");
    assert_eq!(
        knapsack_iter_empty.count(),
        0,
        "Empty items should yield 0 selected items."
    );
    println!("Correctly yielded 0 items for empty input.");
}

#[test]
fn test_case_3_zero_capacity() {
    let items_for_zero_cap = vec![item("itemA", 1, 10)];
    let knapsack_iter_zero_cap = KnapsackIterator::new(items_for_zero_cap, 0);
    println!("\nTesting with zero capacity (Test Case 3):");
    assert_eq!(
        knapsack_iter_zero_cap.count(),
        0,
        "Zero capacity should yield 0 selected items."
    );
    println!("Correctly yielded 0 items for zero capacity.");
}

#[test]
fn test_case_4_items_too_heavy() {
    let items_too_heavy = vec![item("heavy1", 10, 100), item("heavy2", 12, 120)];
    let mut knapsack_iter_heavy = KnapsackIterator::new(items_too_heavy.clone(), 5);
    println!("\nTesting with items too heavy for capacity 5 (Test Case 4):");
    let mut count_heavy = 0;
    while let Some(item) = knapsack_iter_heavy.next() {
        println!(
            "  Selected: id: {}, weight: {}, value: {}",
            item.id,
            item.weight(),
            item.value()
        );
        count_heavy += 1;
    }
    assert_eq!(
        count_heavy, 0,
        "All items too heavy should yield 0 selected items."
    );
    println!("Correctly yielded 0 items when all items are too heavy.");
}

#[test]
fn test_case_5_complex() {
    let items2 = vec![item("A", 10, 60), item("B", 20, 100), item("C", 30, 120)];
    let capacity2 = 50;
    let mut knapsack_iter2 = KnapsackIterator::new(items2.clone(), capacity2);
    let mut total_weight2 = 0;
    let mut total_value2 = 0;
    let mut selected_ids2 = Vec::new();
    while let Some(item) = knapsack_iter2.next() {
        println!(
            "  Selected: id: {}, weight: {}, value: {}",
            item.id,
            item.weight(),
            item.value()
        );
        total_weight2 += item.weight();
        total_value2 += item.value();
        selected_ids2.push(item.id.clone());
    }
    println!(
        "  Total weight: {}, Total value: {}",
        total_weight2, total_value2
    );
    assert_eq!(total_value2, 220, "Value for complex case is incorrect.");
    assert_eq!(total_weight2, 50, "Weight for complex case is incorrect.");
    assert!(
        selected_ids2.contains(&"B".to_string()),
        "Item B should be selected."
    );
    assert!(
        selected_ids2.contains(&"C".to_string()),
        "Item C should be selected."
    );
    assert_eq!(
        selected_ids2.len(),
        2,
        "Incorrect number of items selected for complex case."
    );
    println!("Complex test case passed.");
}

#[test]
fn test_case_6_zero_value_item() {
    let items3 = vec![item("valuable", 5, 10), item("zero_val", 2, 0)];
    let capacity3 = 7;
    println!("\nTest case with zero-value item (Test Case 6):");
    let mut knapsack_iter3 = KnapsackIterator::new(items3.clone(), capacity3);
    let mut total_weight3 = 0;
    let mut total_value3 = 0;
    let mut selected_ids3 = Vec::new();
    while let Some(item) = knapsack_iter3.next() {
        println!(
            "  Selected: id: {}, weight: {}, value: {}",
            item.id,
            item.weight(),
            item.value()
        );
        total_weight3 += item.weight();
        total_value3 += item.value();
        selected_ids3.push(item.id.clone());
    }
    println!(
        "  Total weight: {}, Total value: {}",
        total_weight3, total_value3
    );
    assert_eq!(total_value3, 10);
    assert_eq!(total_weight3, 5);
    assert!(selected_ids3.contains(&"valuable".to_string()));
    assert_eq!(selected_ids3.len(), 1);
    println!("Zero-value item test case passed.");
}
