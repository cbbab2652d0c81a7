use zero_to_prod::routing::{
    controller_route_paths, fold_route_paths, full_route_path, AppModule, HealthCheckController,
    Route,
};

#[test]
fn it_works() {}

#[test]
fn fold_keeps_leading_slash_and_prefixes_each_segment() {
    assert_eq!(fold_route_paths("users/list".to_string()), "//users/list");
}

#[test]
fn fold_of_empty_path_is_root() {
    assert_eq!(fold_route_paths(String::new()), "/");
    assert_eq!(fold_route_paths("/".to_string()), "/");
    assert_eq!(fold_route_paths("///".to_string()), "/");
}

#[test]
fn fold_drops_empty_segments() {
    assert_eq!(fold_route_paths("/a//b/".to_string()), "//a/b");
    assert_eq!(fold_route_paths("health-check".to_string()), "//health-check");
}

#[test]
fn fold_is_idempotent_on_an_example() {
    let once = fold_route_paths("api//v1/users/".to_string());
    let twice = fold_route_paths(once.clone());
    assert_eq!(once, "//api/v1/users");
    assert_eq!(twice, once);
}

#[test]
fn fold_ignores_leading_and_trailing_slashes_on_an_example() {
    let plain = fold_route_paths("subscribe".to_string());
    assert_eq!(fold_route_paths("/subscribe".to_string()), plain);
    assert_eq!(fold_route_paths("subscribe/".to_string()), plain);
}

#[test]
fn fold_keeps_non_ascii_segments() {
    assert_eq!(fold_route_paths("café/ü".to_string()), "//café/ü");
}

#[test]
fn full_route_path_joins_folded_base_and_route() {
    assert_eq!(
        full_route_path("subscriptions", "subscribe".to_string()),
        "//subscriptions//subscribe"
    );
    assert_eq!(full_route_path("/", "/".to_string()), "//");
}

#[test]
fn controller_route_paths_in_route_order() {
    let paths = vec!["a".to_string(), "/b/c/".to_string(), String::new()];
    let full = controller_route_paths("base", paths);
    assert_eq!(full, vec!["//base//a", "//base//b/c", "//base/"]);
}

#[test]
fn app_module_name() {
    assert_eq!(AppModule.name(), "AppModule");
    let _controller = HealthCheckController {};
    let route = Route {
        method: "get".to_string(),
        path: "/health-check".to_string(),
        handler: "health_check".to_string(),
    };
    assert_eq!(route.method, "get");
}
