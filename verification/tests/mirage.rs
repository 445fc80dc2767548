use desert::mirage::{Diagnostic, DiagnosticCode, DiagnosticSpan, Mirage};
use desert::sourcemap::{SourceLocation, SourceMap};

fn span(rs_line_1_based: usize, rs_column_1_based: usize) -> DiagnosticSpan {
    DiagnosticSpan {
        line_start: rs_line_1_based,
        line_end: rs_line_1_based,
        file_name: "main.rs".to_string(),
        column_start: rs_column_1_based,
    }
}

#[test]
fn translate_error_adds_mutability_hint_and_desert_line() {
    let mut source_map = SourceMap::new();
    source_map.add_mapping(
        2,
        SourceLocation {
            file: "example.ds".to_string(),
            line: 9,
            column: 5,
        },
    );
    let msg = Diagnostic {
        message: "cannot borrow `xs` as mutable, as it is not declared as mutable".to_string(),
        code: Some(DiagnosticCode {
            code: "E0596".to_string(),
        }),
        spans: vec![span(3, 1)],
    };

    let translated = Mirage::translate_error(&msg, &source_map);
    assert!(
        translated.contains("Hint: Declare the binding with `mut` before using `~` or `move`.")
    );
    assert!(translated.contains("example.ds:9:5: in Desert source"));
}

#[test]
fn translate_error_adds_method_resolution_hint() {
    let source_map = SourceMap::new();
    let msg = Diagnostic {
        message: "no method named `nope` found for type `i32` in the current scope".to_string(),
        code: Some(DiagnosticCode {
            code: "E0599".to_string(),
        }),
        spans: vec![],
    };

    let translated = Mirage::translate_error(&msg, &source_map);
    assert!(translated.contains(
        "Hint: Call a method that exists for this type, or implement a matching `protocol`/`impl`."
    ));
}

#[test]
fn translate_error_offsets_desert_column_using_rust_span_column() {
    let mut source_map = SourceMap::new();
    source_map.add_mapping_with_rust_column(
        1,
        SourceLocation {
            file: "sample.ds".to_string(),
            line: 3,
            column: 5,
        },
        5,
    );
    let msg = Diagnostic {
        message: "cannot find value `missing` in this scope".to_string(),
        code: None,
        spans: vec![span(2, 11)],
    };

    let translated = Mirage::translate_error(&msg, &source_map);
    assert!(translated.contains("sample.ds:3:11: in Desert source"));
}

#[test]
fn translate_error_rewrites_rust_names_exactly() {
    let source_map = SourceMap::new();
    let msg = Diagnostic {
        message: "expected `Vec<i32>`, found `&mut std::string::String`".to_string(),
        code: Some(DiagnosticCode {
            code: "E0308".to_string(),
        }),
        spans: vec![],
    };
    assert_eq!(
        Mirage::translate_error(&msg, &source_map),
        "expected `List<i32>`, found `~std.string.String`\nHint: Match the declared type annotation with the assigned expression."
    );
}

#[test]
fn translate_error_lists_each_desert_location_once() {
    let mut source_map = SourceMap::new();
    source_map.add_mapping(
        0,
        SourceLocation {
            file: "a.ds".to_string(),
            line: 1,
            column: 1,
        },
    );
    let msg = Diagnostic {
        message: "boom".to_string(),
        code: Some(DiagnosticCode {
            code: "E9999".to_string(),
        }),
        spans: vec![span(1, 1), span(1, 1), span(7, 1), span(0, 3)],
    };
    assert_eq!(
        Mirage::translate_error(&msg, &source_map),
        "boom\n  a.ds:1:1: in Desert source\n  a.ds:1:3: in Desert source"
    );
}

#[test]
fn source_map_lookups() {
    let mut map = SourceMap::new();
    assert!(map.get_location(0).is_none());
    map.add_mapping_with_rust_column(
        3,
        SourceLocation {
            file: "m.ds".to_string(),
            line: 4,
            column: 2,
        },
        0,
    );
    assert!(map.get_location(1).is_none());
    assert_eq!(map.get_location(3).unwrap().line, 4);
    let loc = map.get_location_for_span(3, 10).unwrap();
    assert_eq!(loc, SourceLocation { file: "m.ds".to_string(), line: 4, column: 11 });
    let loc = map.get_location_for_span(3, 0).unwrap();
    assert_eq!(loc.column, 2);
    assert!(map.get_location_for_span(9, 1).is_none());
}
