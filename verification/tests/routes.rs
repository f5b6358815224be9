use restaurant_orders::handlers::handle_delete_order;
use restaurant_orders::handlers::handle_get_order;
use restaurant_orders::handlers::handle_post_order;
use restaurant_orders::handlers::handle_request;
use restaurant_orders::Restaurant;

fn init_restaurant(tables: usize, items: usize) -> Restaurant {
    let restaurant = Restaurant::new(tables);
    let table = restaurant.get_table(1).unwrap();
    let (mut t, handle) = table.acquire_write();
    for i in 0..items {
        t.add_order(i as u32);
    }
    handle.release_write(t);
    restaurant
}

#[test]
fn test_handle_post_order_ok() {
    // Create a sample request body
    let request = "POST /orders HTTP/1.1\r\n\r\n{\"table_id\": 2, \"items\": [101, 102]}";

    let restaurant = init_restaurant(10, 5);

    let result = handle_post_order(request, &restaurant);

    assert!(result.is_ok());
    let response = result.unwrap();
    println!("test {:?}", response);
    assert!(response.contains("HTTP/1.1 200 OK"));
    assert!(response.contains("\\\"table_id\\\":2"));
    assert!(response.contains("\\\"items\\\":[101,102]"));
}

#[test]
fn test_handle_post_order_ng() {
    // String table id
    let request = "POST /orders HTTP/1.1\r\n\r\n{\"table_id\": st, \"items\": [101, 102]}";

    let restaurant = init_restaurant(10, 5);
    let restaurant2 = restaurant.clone();

    let result = handle_post_order(request, &restaurant);

    assert!(result.is_err());
    let response = result.unwrap_err();
    assert!(response.contains("Failed to parse order request"));

    // String item id
    let request2 = "POST /orders HTTP/1.1\r\n\r\n{\"table_id\": 1, \"items\": [st, 102]}";

    let result2 = handle_post_order(request2, &restaurant2);
    assert!(result2.is_err());
    let response2 = result2.unwrap_err();
    assert!(response2.contains("Failed to parse order request"));
}

#[test]
fn test_handle_delete_order_ok() {
    let path = "/orders/1/2"; // Assuming table_id = 1, item_id = 2

    let restaurant = init_restaurant(10, 5);

    let result = handle_delete_order(path, &restaurant);

    assert!(result.is_ok());
    let response = result.unwrap();
    assert!(response.contains("HTTP/1.1 200 OK"));
    assert!(response.contains("Removed 2 from table 1"));
}

#[test]
fn test_handle_get_all_orders_ok() {
    let path = "/orders/1";

    let restaurant = init_restaurant(10, 5);

    let result = handle_get_order(path, &restaurant);

    assert!(result.is_ok());
    let response = result.unwrap();

    assert!(response.contains("HTTP/1.1 200 OK"));
    assert!(response.contains("\\\"item_id\\\":0,\\\"table_id\\\":1"));
    assert!(response.contains("\\\"item_id\\\":1,\\\"table_id\\\":1"));
    assert!(response.contains("\\\"item_id\\\":2,\\\"table_id\\\":1"));
    assert!(response.contains("\\\"item_id\\\":3,\\\"table_id\\\":1"));
    assert!(response.contains("\\\"item_id\\\":4,\\\"table_id\\\":1"));
    assert!(!response.contains("\\\"item_id\\\":5,\\\"table_id\\\":1"));
}

#[test]
fn test_handle_get_one_order_ok() {
    let path = "/orders/1/items/3";

    let restaurant = init_restaurant(10, 5);

    let result = handle_get_order(path, &restaurant);

    assert!(result.is_ok());
    let response = result.unwrap();

    assert!(response.contains("HTTP/1.1 200 OK"));
    assert!(!response.contains("\\\"item_id\\\":0,\\\"table_id\\\":1"));
    assert!(!response.contains("\\\"item_id\\\":1,\\\"table_id\\\":1"));
    assert!(!response.contains("\\\"item_id\\\":2,\\\"table_id\\\":1"));
    assert!(response.contains("\\\"item_id\\\":3,\\\"table_id\\\":1"));
    assert!(!response.contains("\\\"item_id\\\":4,\\\"table_id\\\":1"));
    assert!(!response.contains("\\\"item_id\\\":5,\\\"table_id\\\":1"));
}

#[test]
fn test_valid_post_request() {
    let request = "POST /orders HTTP/1.1\r\n\r\n{\"table_id\": 6, \"items\": [101, 102]}";
    let restaurant = Restaurant::new(12);
    let result = handle_request(request, &restaurant);
    assert!(result.is_ok());
    assert_eq!(
        result.unwrap(),
        "HTTP/1.1 200 OK\r\n\r\n{\"data\":\"{\\\"table_id\\\":6,\\\"items\\\":[101,102]}\",\"message\":\"Success!\",\"success\":true}"
    );
}

#[test]
fn test_invalid_request_line() {
    let request = "INVALID_REQUEST_LINE";
    let restaurant = Restaurant::new(12);
    let result = handle_request(request, &restaurant);
    assert!(result.is_err());
    assert_eq!(result.unwrap_err(), "Invalid request");
}

#[test]
fn test_valid_delete_request() {
    let request = "POST /orders HTTP/1.1\r\n\r\n{\"table_id\": 15, \"items\": [16, 102]}";
    let restaurant = Restaurant::new(100);
    let restaurant2 = restaurant.clone();
    let restaurant3 = restaurant.clone();

    let _result = handle_request(request, &restaurant);

    let request2 = "DELETE /orders/15/16 HTTP/1.1\r\n\r\n";
    let result2 = handle_request(request2, &restaurant2);
    assert!(result2.is_ok());
    assert_eq!(
        result2.unwrap(),
        "HTTP/1.1 200 OK\r\n\r\n{\"message\":\"Removed 16 from table 15\",\"success\":true}"
    );

    let request3 = "DELETE /orders/10/16 HTTP/1.1\r\n\r\n";
    let result3 = handle_request(request3, &restaurant3);
    assert!(result3.is_ok());
    assert_eq!(
        result3.unwrap(),
        "HTTP/1.1 400 Bad Request\r\n\r\n{\"message\":\"Order not found\",\"success\":false}"
    );
}

#[test]
fn test_valid_get_request() {
    let request = "POST /orders HTTP/1.1\r\n\r\n{\"table_id\": 15, \"items\": [16, 102]}";
    let restaurant = Restaurant::new(100);
    let restaurant2 = restaurant.clone();
    let restaurant3 = restaurant.clone();

    let _result = handle_request(request, &restaurant);

    // Get all orders
    let request2 = "GET /orders/15 HTTP/1.1\r\n\r\n";
    let result2 = handle_request(request2, &restaurant2);
    assert!(result2.is_ok());
    let response = result2.unwrap();
    assert!(response.contains("\\\"item_id\\\":16,\\\"table_id\\\":15"));
    assert!(response.contains("\\\"item_id\\\":102,\\\"table_id\\\":15"));

    // Get 1 order
    let request3 = "GET /orders/15/items/16 HTTP/1.1\r\n\r\n";
    let result3 = handle_request(request3, &restaurant3);
    assert!(result3.is_ok());
    let response2 = result3.unwrap();
    assert!(response2.contains("\\\"item_id\\\":16,\\\"table_id\\\":15"));
    assert!(!response2.contains("\\\"item_id\\\":102,\\\"table_id\\\":15"));
}

#[test]
fn test_invalid_request_path() {
    let request = "GET /invalid-path HTTP/1.1\r\n\r\n";
    let restaurant = Restaurant::new(100);
    let result = handle_request(request, &restaurant);
    assert!(result.is_ok());
    assert_eq!(result.unwrap(), "HTTP/1.1 404 Not Found\r\n\r\nNot Found");
}

#[test]
fn test_get_read_is_idempotent() {
    // Two reads of the same table and item without intervening mutation
    // must agree exactly.
    let restaurant = init_restaurant(5, 4);
    let first = handle_get_order("/orders/1", &restaurant).unwrap();
    let second = handle_get_order("/orders/1", &restaurant).unwrap();
    assert_eq!(first, second);

    let one_a = handle_get_order("/orders/1/items/2", &restaurant).unwrap();
    let one_b = handle_get_order("/orders/1/items/2", &restaurant).unwrap();
    assert_eq!(one_a, one_b);
}

#[test]
fn test_tables_are_independent() {
    // Work against table 2 never shows up in, nor disturbs, table 3.
    let restaurant = Restaurant::new(10);
    let post = "POST /orders HTTP/1.1\r\n\r\n{\"table_id\": 2, \"items\": [7, 8]}";
    assert!(handle_request(post, &restaurant).unwrap().contains("200 OK"));

    let other = handle_get_order("/orders/3", &restaurant).unwrap();
    assert!(other.contains("\\\"data\\\"") || other.contains("[]"));
    assert!(!other.contains("\\\"item_id\\\":7"));

    // A failing delete on table 3 leaves table 2 untouched.
    let del = handle_delete_order("/orders/3/7", &restaurant);
    assert!(del.is_err());
    let still_there = handle_get_order("/orders/2", &restaurant).unwrap();
    assert!(still_there.contains("\\\"item_id\\\":7"));
    assert!(still_there.contains("\\\"item_id\\\":8"));
}

#[test]
fn test_readd_same_item_does_not_duplicate() {
    // Re-adding an item id overwrites: the listing holds one entry for it.
    let restaurant = Restaurant::new(4);
    let post = "POST /orders HTTP/1.1\r\n\r\n{\"table_id\": 1, \"items\": [9, 9]}";
    assert!(handle_request(post, &restaurant).unwrap().contains("200 OK"));
    let listing = handle_get_order("/orders/1", &restaurant).unwrap();
    let needle = "\\\"item_id\\\":9";
    assert_eq!(listing.matches(needle).count(), 1);
}

#[test]
fn test_delete_absent_leaves_state() {
    // Removing an absent item fails and never mutates state.
    let restaurant = init_restaurant(5, 3);
    let before = handle_get_order("/orders/1", &restaurant).unwrap();
    let del = handle_delete_order("/orders/1/77", &restaurant);
    assert!(del.is_err());
    assert!(del.unwrap_err().contains("Order not found"));
    let after = handle_get_order("/orders/1", &restaurant).unwrap();
    assert_eq!(before, after);
}

#[test]
fn test_post_empty_items() {
    let request = "POST /orders HTTP/1.1\r\n\r\n{\"table_id\": 0, \"items\": []}";
    let restaurant = Restaurant::new(3);
    let result = handle_request(request, &restaurant).unwrap();
    assert_eq!(
        result,
        "HTTP/1.1 200 OK\r\n\r\n{\"data\":\"{\\\"table_id\\\":0,\\\"items\\\":[]}\",\"message\":\"Success!\",\"success\":true}"
    );
}

#[test]
fn test_post_fields_in_either_order() {
    let request = "POST /orders HTTP/1.1\r\n\r\n{\"items\": [3], \"table_id\": 2}";
    let restaurant = Restaurant::new(5);
    let result = handle_request(request, &restaurant).unwrap();
    assert!(result.contains("200 OK"));
    assert!(result.contains("\\\"table_id\\\":2"));
    assert!(result.contains("\\\"items\\\":[3]"));
}

#[test]
fn test_post_table_out_of_range() {
    // An out-of-range table id is a validation failure, never fatal.
    let request = "POST /orders HTTP/1.1\r\n\r\n{\"table_id\": 99, \"items\": [1]}";
    let restaurant = Restaurant::new(10);
    let result = handle_request(request, &restaurant).unwrap();
    assert_eq!(result, "HTTP/1.1 400 Bad Request\r\n\r\nInvalid table id");
}

#[test]
fn test_post_missing_body_separator() {
    let request = "POST /orders HTTP/1.1";
    let restaurant = Restaurant::new(3);
    let result = handle_request(request, &restaurant).unwrap();
    assert_eq!(result, "HTTP/1.1 400 Bad Request\r\n\r\nInvalid request");
}

#[test]
fn test_delete_error_messages() {
    let restaurant = Restaurant::new(10);
    let bad_table = handle_request("DELETE /orders/st/1 HTTP/1.1\r\n\r\n", &restaurant);
    assert_eq!(
        bad_table.unwrap(),
        "HTTP/1.1 400 Bad Request\r\n\r\nInvalid table id"
    );
    let bad_item = handle_request("DELETE /orders/1/st HTTP/1.1\r\n\r\n", &restaurant);
    assert_eq!(
        bad_item.unwrap(),
        "HTTP/1.1 400 Bad Request\r\n\r\nInvalid item id"
    );
    let bad_shape = handle_request("DELETE /orders/1/2/3 HTTP/1.1\r\n\r\n", &restaurant);
    assert_eq!(
        bad_shape.unwrap(),
        "HTTP/1.1 400 Bad Request\r\n\r\n{\"message\":\"Invalid path\",\"success\":false}"
    );
    let overflow = handle_request(
        "DELETE /orders/99999999999/1 HTTP/1.1\r\n\r\n",
        &restaurant,
    );
    assert_eq!(
        overflow.unwrap(),
        "HTTP/1.1 400 Bad Request\r\n\r\nInvalid table id"
    );
}

#[test]
fn test_get_error_messages() {
    let restaurant = Restaurant::new(10);
    let bad_table = handle_request("GET /orders/st HTTP/1.1\r\n\r\n", &restaurant);
    assert_eq!(
        bad_table.unwrap(),
        "HTTP/1.1 400 Bad Request\r\n\r\nInvalid table id"
    );
    let bad_item = handle_request("GET /orders/1/items/st HTTP/1.1\r\n\r\n", &restaurant);
    assert_eq!(
        bad_item.unwrap(),
        "HTTP/1.1 400 Bad Request\r\n\r\nInvalid item id"
    );
    let bad_shape = handle_request("GET /orders/1/items HTTP/1.1\r\n\r\n", &restaurant);
    assert_eq!(
        bad_shape.unwrap(),
        "HTTP/1.1 400 Bad Request\r\n\r\nInvalid path"
    );
    let out_of_range = handle_request("GET /orders/99 HTTP/1.1\r\n\r\n", &restaurant);
    assert_eq!(
        out_of_range.unwrap(),
        "HTTP/1.1 400 Bad Request\r\n\r\nInvalid table id"
    );
}

#[test]
fn test_get_missing_item_is_null_success() {
    // Fetching a specific nonexistent item succeeds with a null payload.
    let restaurant = Restaurant::new(5);
    let result = handle_get_order("/orders/1/items/42", &restaurant).unwrap();
    assert_eq!(
        result,
        "HTTP/1.1 200 OK\r\n\r\n{\"data\":\"null\",\"message\":\"Success!\",\"success\":true}"
    );
}
