use order_recs::Order;
use order_recs::OrderItem;
use order_recs::OrderStore;
use order_recs::Product;
use order_recs::RejectReason;

fn item(pid: &str, name: &str, quantity: u16) -> OrderItem {
    OrderItem { product: Product { id: pid.to_string(), name: name.to_string() }, quantity }
}

fn order(id: &str, pids: &[&str]) -> Order {
    Order {
        id: id.to_string(),
        items: pids.iter().map(|p| item(p, "box", 3)).collect(),
    }
}

#[test]
fn test_get_orders() {
    let mut store = OrderStore::new();
    let submitted = Order { id: "aaa".to_string(), items: vec![item("ccc", "box", 3)] };
    assert!(store.submit(submitted.clone()).is_ok());

    let body = store.list();

    assert!(body[0] == submitted);
}

#[test]
fn test_delete_orders() {
    let mut store = OrderStore::new();
    let submitted = Order { id: "aaa".to_string(), items: vec![item("ccc", "box", 3)] };
    assert!(store.submit(submitted).is_ok());

    store.reset();

    let body = store.list();
    assert!(body == vec![]);
}

#[test]
fn test_post_order() {
    let mut store = OrderStore::new();
    let submitted = Order { id: "aaa".to_string(), items: vec![item("ccc", "box", 3)] };
    let outcome = store.submit(submitted.clone());
    assert!(outcome.is_ok());

    let body = store.list();

    assert!(body == vec![submitted]);
}

#[test]
fn empty_items_rejected_and_not_listed() {
    let mut store = OrderStore::new();
    let outcome = store.submit(Order { id: "aaa".to_string(), items: vec![] });
    assert_eq!(outcome, Err(RejectReason::EmptyItems));

    let body = store.list();
    assert!(body.is_empty());
}

#[test]
fn duplicate_id_rejected_and_state_kept() {
    let mut store = OrderStore::new();
    let first = order("aaa", &["p1", "p2"]);
    assert!(store.submit(first.clone()).is_ok());

    let second = order("aaa", &["p3"]);
    let outcome = store.submit(second);
    assert_eq!(outcome, Err(RejectReason::DuplicateId));

    let body = store.list();
    assert!(body == vec![first]);
}

#[test]
fn listing_keeps_insertion_order() {
    let mut store = OrderStore::new();
    let first = order("o-1", &["p1"]);
    let second = order("o-2", &["p2"]);
    let third = order("o-3", &["p3"]);
    assert!(store.submit(first.clone()).is_ok());
    assert!(store.submit(second.clone()).is_ok());
    assert!(store.submit(third.clone()).is_ok());

    let body = store.list();
    assert!(body == vec![first, second, third]);
}

#[test]
fn reset_is_idempotent() {
    let mut store = OrderStore::new();
    assert!(store.submit(order("o-1", &["p1"])).is_ok());

    store.reset();
    assert!(store.list().is_empty());

    store.reset();
    assert!(store.list().is_empty());

    assert!(store.submit(order("o-1", &["p1"])).is_ok());
    store.reset();
    assert!(store.list().is_empty());
}
