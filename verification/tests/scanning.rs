use zero_to_prod::route_scan::{
    controller_path_of, find_controller_line, find_routes, try_find_routes,
};

fn lines(src: &[&str]) -> Vec<String> {
    src.iter().map(|s| s.to_string()).collect()
}

#[test]
fn find_routes_reads_attribute_and_function_lines() {
    let src = lines(&[
        "use crate::x;",
        "#[post(\"subscribe\")]",
        "pub async fn subscribe(pool: Extension<PgPool>) -> Response {",
        "}",
        "#[get(\"health-check\")]",
        "fn health_check() -> Response {",
    ]);
    let routes = find_routes(&src);
    assert_eq!(
        routes,
        vec![
            ("post".to_string(), "subscribe".to_string(), "subscribe".to_string()),
            ("get".to_string(), "health-check".to_string(), "health_check".to_string()),
        ]
    );
}

#[test]
fn find_routes_ignores_options_and_plain_lines() {
    let src = lines(&["#[options(\"x\")]", "fn x() {}", "fn y() {}"]);
    assert!(find_routes(&src).is_empty());
}

#[test]
fn find_routes_skips_the_function_line() {
    let src = lines(&["#[put(\"a\")]", "#[patch(\"b\")] fn a() {}", "fn c() {}"]);
    assert_eq!(
        find_routes(&src),
        vec![("put".to_string(), "a".to_string(), "a".to_string())]
    );
}

#[test]
fn try_find_routes_none_when_attribute_is_last() {
    let src = lines(&["fn a() {}", "#[delete(\"item\")]"]);
    assert_eq!(try_find_routes(&src), None);
}

#[test]
fn try_find_routes_none_when_no_function_follows() {
    let src = lines(&["#[get(\"a\")]", "struct A;"]);
    assert_eq!(try_find_routes(&src), None);
}

#[test]
fn try_find_routes_none_when_route_is_unquoted() {
    let src = lines(&["#[get(a)]", "fn a() {}"]);
    assert_eq!(try_find_routes(&src), None);
}

#[test]
fn try_find_routes_some_on_well_formed_lines() {
    let src = lines(&["#[delete(\"items\")]", "async fn remove_item(id: u32) {}"]);
    assert_eq!(
        try_find_routes(&src),
        Some(vec![("delete".to_string(), "items".to_string(), "remove_item".to_string())])
    );
}

#[test]
fn find_controller_line_first_match() {
    let index = lines(&[
        "last_write:0",
        "HealthCheckController:/src/a.rs",
        "SubscriptionController:/src/b.rs",
        "SubscriptionController:/src/c.rs",
    ]);
    assert_eq!(find_controller_line(&index, "SubscriptionController"), Some(2));
    assert_eq!(find_controller_line(&index, "Health"), None);
    assert_eq!(find_controller_line(&index, "Missing"), None);
}

#[test]
fn controller_path_is_second_piece() {
    assert_eq!(controller_path_of("SubscriptionController:/src/b.rs"), "/src/b.rs");
    assert_eq!(controller_path_of("A:b:c"), "b");
    assert_eq!(controller_path_of("A:"), "");
}

#[test]
fn route_from_captures_orders_method_path_function() {
    use_route_from_captures();
}

fn use_route_from_captures() {
    let r = zero_to_prod::route_scan::route_from_captures(
        Some("subscribe".to_string()),
        Some("post".to_string()),
        Some("subscribe-path".to_string()),
    );
    assert_eq!(
        r,
        Some(("post".to_string(), "subscribe-path".to_string(), "subscribe".to_string()))
    );
    assert_eq!(
        zero_to_prod::route_scan::route_from_captures(None, Some("get".to_string()), Some("a".to_string())),
        None
    );
    assert_eq!(
        zero_to_prod::route_scan::route_from_captures(Some("f".to_string()), Some("get".to_string()), None),
        None
    );
}
