use desert::ast::ImportItem;
use desert::imports::{
    is_supported_rust_root, rust_import_binding_name, rust_use_from_from_import,
    rust_use_from_import, rust_use_from_import_path,
};

#[test]
fn rust_import_from_dotted_path() {
    assert_eq!(
        rust_use_from_import_path("rust/std/cmp/max"),
        Some("std::cmp::max".to_string())
    );
}

#[test]
fn rust_import_from_string_path() {
    assert_eq!(
        rust_use_from_import_path("rust:std::io::Read"),
        Some("std::io::Read".to_string())
    );
}

#[test]
fn rust_import_binding_extracts_leaf() {
    assert_eq!(rust_import_binding_name("std::cmp::max"), Some("max"));
    assert_eq!(
        rust_import_binding_name("std::collections::HashMap as Map"),
        Some("Map")
    );
}

#[test]
fn rust_import_root_is_whitelisted() {
    assert!(is_supported_rust_root("std::cmp::max"));
    assert!(!is_supported_rust_root("serde::Serialize"));
}

#[test]
fn rust_use_with_alias() {
    assert_eq!(
        rust_use_from_import("rust/std/collections/HashMap", Some("Map")),
        Some("std::collections::HashMap as Map".to_string())
    );
}

#[test]
fn rust_use_from_list() {
    let items = vec![
        ImportItem {
            name: "max".to_string(),
            alias: Some("maximum".to_string()),
        },
        ImportItem {
            name: "min".to_string(),
            alias: None,
        },
    ];
    assert_eq!(
        rust_use_from_from_import("rust/std/cmp", &items),
        Some("std::cmp::{max as maximum, min}".to_string())
    );
}

#[test]
fn non_rust_paths_are_not_rust_imports() {
    assert_eq!(rust_use_from_import_path("util/math"), None);
    assert_eq!(rust_use_from_import_path("rust/"), None);
    assert_eq!(rust_use_from_import_path("rust:::"), None);
    assert_eq!(rust_use_from_import("lib/helpers", Some("h")), None);
    assert_eq!(rust_use_from_from_import("lib/helpers", &[]), None);
}

#[test]
fn rust_import_path_trims_surrounding_colons() {
    assert_eq!(
        rust_use_from_import_path("rust:::std::fmt::"),
        Some("std::fmt".to_string())
    );
    assert_eq!(rust_use_from_import("rust/std/fmt", None), Some("std::fmt".to_string()));
}

#[test]
fn binding_name_edge_cases() {
    assert_eq!(rust_import_binding_name("std::io::*"), None);
    assert_eq!(rust_import_binding_name("std::io::"), None);
    assert_eq!(rust_import_binding_name("max"), Some("max"));
    assert_eq!(rust_import_binding_name("std::io::Read as *"), Some("Read as *"));
    assert_eq!(rust_import_binding_name("std::io::Read as "), Some("Read as "));
}

#[test]
fn supported_roots() {
    assert!(is_supported_rust_root("core"));
    assert!(is_supported_rust_root("alloc::vec::Vec"));
    assert!(!is_supported_rust_root("stdx::thing"));
    assert!(!is_supported_rust_root(""));
}
