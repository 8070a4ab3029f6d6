use order_recs::bought_together;
use order_recs::total_lines;
use order_recs::Order;
use order_recs::OrderItem;
use order_recs::Product;

fn item_with_quantity(pid: &str, quantity: u16) -> OrderItem {
    OrderItem {
        product: Product { id: pid.to_string(), name: "box".to_string() },
        quantity,
    }
}

fn order(id: &str, pids: &[&str]) -> Order {
    Order {
        id: id.to_string(),
        items: pids.iter().map(|p| item_with_quantity(p, 3)).collect(),
    }
}

fn five_orders() -> Vec<Order> {
    vec![
        order("o-1", &["sample", "aaa", "bbb", "ccc"]),
        order("o-2", &["sample", "aaa", "ccc"]),
        order("o-3", &["sample", "ccc"]),
        order("o-4", &["ddd"]),
        order("o-5", &["ddd"]),
    ]
}

#[test]
fn test_bought_together() {
    let orders = five_orders();

    let body = bought_together(&orders, &"sample".to_string());

    assert_eq!(body, vec!["ccc".to_string(), "aaa".to_string(), "bbb".to_string()]);

    assert!(!body.contains(&"ddd".to_string()));
}

#[test]
fn unknown_target_yields_empty() {
    let orders = five_orders();
    let body = bought_together(&orders, &"nope".to_string());
    assert!(body.is_empty());
}

#[test]
fn empty_snapshot_yields_empty() {
    let orders: Vec<Order> = vec![];
    let body = bought_together(&orders, &"sample".to_string());
    assert!(body.is_empty());
}

#[test]
fn target_never_recommends_itself() {
    let orders = vec![order("o-1", &["sample", "sample", "aaa"])];
    let body = bought_together(&orders, &"sample".to_string());
    assert_eq!(body, vec!["aaa".to_string()]);
}

#[test]
fn result_is_capped_at_ten() {
    // product p<i> appears in orders 1..=i, so its count is i; the
    // twelve candidates outnumber the cap and the two rarest drop off
    let mut orders: Vec<Order> = Vec::new();
    for j in 1..=12u32 {
        let pids: Vec<String> = (j..=12).map(|i| format!("p{:02}", i)).collect();
        let mut all: Vec<&str> = vec!["sample"];
        all.extend(pids.iter().map(|s| s.as_str()));
        orders.push(order(&format!("o-{}", j), &all));
    }

    let body = bought_together(&orders, &"sample".to_string());

    let expected: Vec<String> = (3..=12).rev().map(|i| format!("p{:02}", i)).collect();
    assert_eq!(body, expected);
    assert_eq!(body.len(), 10);
}

#[test]
fn counts_accumulate_per_line() {
    // yyy appears on three lines of one order, xxx on two of another:
    // per-line counting ranks yyy first even though each id occurs in
    // a single order
    let orders = vec![
        order("o-1", &["sample", "xxx", "xxx"]),
        order("o-2", &["sample", "yyy", "yyy", "yyy"]),
    ];

    let body = bought_together(&orders, &"sample".to_string());

    assert_eq!(body, vec!["yyy".to_string(), "xxx".to_string()]);
}

#[test]
fn quantities_do_not_weight_counts() {
    let orders = vec![Order {
        id: "o-1".to_string(),
        items: vec![
            item_with_quantity("sample", 1),
            item_with_quantity("aaa", 99),
            item_with_quantity("bbb", 1),
            item_with_quantity("bbb", 1),
        ],
    }];

    let body = bought_together(&orders, &"sample".to_string());

    assert_eq!(body, vec!["bbb".to_string(), "aaa".to_string()]);
}

#[test]
fn only_qualifying_orders_count() {
    // aaa occurs everywhere, but only orders carrying the target
    // contribute; ddd's orders never qualify
    let orders = vec![
        order("o-1", &["sample", "aaa"]),
        order("o-2", &["aaa", "aaa", "aaa"]),
        order("o-3", &["ddd", "aaa"]),
    ];

    let body = bought_together(&orders, &"sample".to_string());

    assert_eq!(body, vec!["aaa".to_string()]);
}

#[test]
fn total_lines_sums_every_order() {
    let orders = five_orders();
    assert_eq!(total_lines(&orders), Some(11));

    let none: Vec<Order> = vec![];
    assert_eq!(total_lines(&none), Some(0));
}

#[test]
fn tied_counts_list_every_candidate() {
    // aaa and bbb both co-occur once; their mutual order is not part
    // of the contract, so only membership and length are checked
    let orders = vec![order("o-1", &["sample", "aaa", "bbb"])];

    let body = bought_together(&orders, &"sample".to_string());

    assert_eq!(body.len(), 2);
    assert!(body.contains(&"aaa".to_string()));
    assert!(body.contains(&"bbb".to_string()));
}
