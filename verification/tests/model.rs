use restaurant_orders::handlers::handle_get_order;
use restaurant_orders::handlers::handle_request;
use restaurant_orders::Order;
use restaurant_orders::Restaurant;
use restaurant_orders::Table;

#[test]
fn test_order() -> Result<(), String> {
    let order = Order::new(10, 2, 5);

    assert_eq!(
        order,
        Order {
            item_id: 10,
            table_id: 2,
            waiting_time: 5,
        }
    );
    Ok(())
}

#[test]
fn test_new_restaurant() {
    let num_tables = 5;
    let restaurant = Restaurant::new(num_tables);
    let actual_num_tables = restaurant.num_tables();

    assert_eq!(actual_num_tables, num_tables);
}

#[test]
fn test_get_table() {
    let num_tables = 3;
    let restaurant = Restaurant::new(num_tables);

    let table_id = 1;
    let table_ptr = restaurant.get_table(table_id);

    assert!(table_ptr.is_some()); // Check that the handle exists and locks
    let ptr = table_ptr.unwrap();
    let (table, handle) = ptr.acquire_write();
    handle.release_write(table);
}

#[test]
fn test_get_table_out_of_range() {
    let restaurant = Restaurant::new(3);
    assert!(restaurant.get_table(3).is_none());
    assert!(restaurant.get_table(100).is_none());
}

#[test]
fn test_add_order() {
    let mut table = Table::new(1);
    table.add_order(42);

    assert!(table.get_order(42).is_some());
}

#[test]
fn test_get_order() {
    let mut table = Table::new(2);
    table.add_order(43);

    let order = table.get_order(43);
    assert!(order.is_some());
    assert_eq!(order.unwrap().item_id, 43);
}

#[test]
fn test_get_orders() {
    let mut table = Table::new(3);
    table.add_order(44);
    table.add_order(45);

    let orders = table.get_orders();
    assert_eq!(orders.len(), 2);
}

#[test]
fn test_remove_order() {
    let mut table = Table::new(4);
    table.add_order(46);

    let removed_order = table.remove_order(46);
    assert!(removed_order.is_some());
    assert_eq!(removed_order.unwrap().item_id, 46);
    assert!(table.get_order(46).is_none());
}

#[test]
fn test_waiting_time_in_range() {
    // The wait estimate is drawn from [5, 16) minutes at creation.
    let mut table = Table::new(7);
    for i in 0..50 {
        table.add_order(i);
        let w = table.get_order(i).unwrap().waiting_time;
        assert!((5..16).contains(&w));
    }
}

#[test]
fn test_readd_overwrites_last_write_wins() {
    let mut table = Table::new(1);
    table.add_order(5);
    table.add_order(5);
    assert_eq!(table.get_orders().len(), 1);
    assert_eq!(table.get_order(5).unwrap().item_id, 5);
    assert_eq!(table.get_order(5).unwrap().table_id, 1);
}

#[test]
fn test_remove_absent_returns_none_and_keeps_state() {
    let mut table = Table::new(2);
    table.add_order(1);
    table.add_order(2);
    assert!(table.remove_order(9).is_none());
    assert_eq!(table.get_orders().len(), 2);
    assert!(table.get_order(1).is_some());
    assert!(table.get_order(2).is_some());
}

#[test]
fn test_interleaved_ops_serialize() {
    // Two holders of the same store: every update lands, none is lost,
    // and item ids stay unique on the shared table.
    let restaurant = Restaurant::new(4);
    let a = restaurant.clone();
    let b = restaurant.clone();

    let ta = a.get_table(2).unwrap();
    let (mut t, h) = ta.acquire_write();
    t.add_order(1);
    t.add_order(2);
    h.release_write(t);

    let tb = b.get_table(2).unwrap();
    let (mut t, h) = tb.acquire_write();
    t.add_order(3);
    let removed = t.remove_order(2);
    h.release_write(t);
    assert!(removed.is_some());

    let listing = handle_get_order("/orders/2", &restaurant).unwrap();
    assert!(listing.contains("\\\"item_id\\\":1"));
    assert!(!listing.contains("\\\"item_id\\\":2,"));
    assert!(listing.contains("\\\"item_id\\\":3"));
}

#[test]
fn test_response_is_valid_json() {
    // Cross-check the hand-built wire format with an independent JSON
    // parser: envelope fields, the embedded data string, and the wait
    // estimate's range.
    let restaurant = Restaurant::new(8);
    let post = "POST /orders HTTP/1.1\r\n\r\n{\"table_id\": 3, \"items\": [21]}";
    let response = handle_request(post, &restaurant).unwrap();
    let body = response.split("\r\n\r\n").nth(1).unwrap();
    let v: serde_json::Value = serde_json::from_str(body).unwrap();
    assert_eq!(v.get("success").unwrap().as_bool(), Some(true));
    assert_eq!(v.get("message").unwrap().as_str(), Some("Success!"));
    let data: serde_json::Value =
        serde_json::from_str(v.get("data").unwrap().as_str().unwrap()).unwrap();
    assert_eq!(data.get("table_id").unwrap().as_u64(), Some(3));
    assert_eq!(data.get("items").unwrap().as_array().unwrap().len(), 1);

    let single = handle_request("GET /orders/3/items/21 HTTP/1.1\r\n\r\n", &restaurant).unwrap();
    let sbody = single.split("\r\n\r\n").nth(1).unwrap();
    let sv: serde_json::Value = serde_json::from_str(sbody).unwrap();
    let order: serde_json::Value =
        serde_json::from_str(sv.get("data").unwrap().as_str().unwrap()).unwrap();
    assert_eq!(order.get("item_id").unwrap().as_u64(), Some(21));
    assert_eq!(order.get("table_id").unwrap().as_u64(), Some(3));
    let w = order.get("waiting_time").unwrap().as_u64().unwrap();
    assert!((5..16).contains(&w));
}
