use zero_to_prod::route_scan::{controller_path_of, find_controller_line};
use zero_to_prod::routes_index::{
    duplicate_controller, find_controller, index_entries, is_controller, routes_index_entry,
    try_find_controller, ControllerStructure,
};

fn lines(src: &[&str]) -> Vec<String> {
    src.iter().map(|s| s.to_string()).collect()
}

#[test]
fn find_controller_reads_struct_after_attribute() {
    let src = lines(&[
        "use x;",
        "#[controller(\"subscriptions\")]",
        "pub struct SubscriptionController {}",
    ]);
    let found = find_controller(&src, "/src/c.rs").expect("a controller");
    assert_eq!(found.name, "SubscriptionController");
    assert_eq!(found.path, "/src/c.rs");
}

#[test]
fn find_controller_skips_lines_until_a_struct() {
    let src = lines(&[
        "#[controller(\"a\")]",
        "#[derive(Debug)]",
        "struct   Users_1 {",
        "}",
    ]);
    assert_eq!(find_controller(&src, "p").unwrap().name, "Users_1");
}

#[test]
fn find_controller_stops_at_empty_line_and_goes_on() {
    let src = lines(&[
        "#[controller(\"a\")]",
        "",
        "struct NotAController;",
        "#[controller(\"b\")]",
        "struct Second;",
    ]);
    assert_eq!(find_controller(&src, "p").unwrap().name, "Second");
}

#[test]
fn find_controller_none_without_attribute() {
    let src = lines(&["struct A;", "}"]);
    assert!(find_controller(&src, "p").is_none());
}

#[test]
fn try_find_controller_none_when_file_ends_in_declaration() {
    let src = lines(&["#[controller(\"a\")]", "// nothing declared"]);
    assert!(try_find_controller(&src, "p").is_none());
    let ok = lines(&["#[controller(\"a\")]", "}"]);
    assert!(matches!(try_find_controller(&ok, "p"), Some(None)));
}

#[test]
fn is_controller_file_names() {
    assert!(is_controller("controller.rs"));
    assert!(is_controller("subscription_controller.rs"));
    assert!(!is_controller("controller.rs.bak".trim_end_matches(".rs.bak")));
    assert!(!is_controller("mod.rs"));
    assert!(!is_controller(""));
}

#[test]
fn index_entry_round_trip() {
    let entry = routes_index_entry("SubscriptionController", "/app/src/controller.rs");
    assert_eq!(entry, "SubscriptionController:/app/src/controller.rs");
    let index = vec!["last_write:0".to_string(), entry];
    let i = find_controller_line(&index, "SubscriptionController").unwrap();
    assert_eq!(controller_path_of(&index[i]), "/app/src/controller.rs");
}

fn controller(name: &str, path: &str) -> ControllerStructure {
    ControllerStructure { name: name.to_string(), path: path.to_string() }
}

#[test]
fn duplicate_controller_finds_second_occurrence() {
    let cs = vec![controller("A", "/a"), controller("B", "/b"), controller("A", "/c")];
    assert_eq!(duplicate_controller(&cs), Some(2));
    let distinct = vec![controller("A", "/a"), controller("B", "/b")];
    assert_eq!(duplicate_controller(&distinct), None);
    assert_eq!(duplicate_controller(&Vec::new()), None);
}

#[test]
fn index_entries_in_order() {
    let cs = vec![controller("A", "/a.rs"), controller("B", "/b.rs")];
    assert_eq!(index_entries(&cs), vec!["A:/a.rs", "B:/b.rs"]);
}
