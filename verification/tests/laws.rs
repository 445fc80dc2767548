use desert::ast::Expression;
use desert::imports::{rust_import_binding_name, rust_use_from_import, rust_use_from_import_path};
use desert::parser::parse_program;
use desert::project::line_origins_for_file;
use desert::transpiler::Transpiler;
use desert::lexer::{tokenize, Token};
use desert::mirage::{Diagnostic, DiagnosticSpan, Mirage};
use desert::resolver::Resolver;
use desert::sourcemap::{SourceLocation, SourceMap};

fn loc(file: &str, line: usize, column: usize) -> SourceLocation {
    SourceLocation { file: file.to_string(), line, column }
}

#[test]
fn mapping_reads_back_what_was_written() {
    let mut map = SourceMap::new();
    map.add_mapping(0, loc("a.ds", 1, 1));
    map.add_mapping_with_rust_column(3, loc("a.ds", 7, 5), 9);
    assert_eq!(map.get_location(3), Some(&loc("a.ds", 7, 5)));
    assert_eq!(map.get_location(0), Some(&loc("a.ds", 1, 1)));
    assert_eq!(map.get_location(2), None);
    assert_eq!(map.get_location_for_span(3, 9), Some(loc("a.ds", 7, 5)));
    assert_eq!(map.get_location_for_span(3, 12), Some(loc("a.ds", 7, 8)));
    map.add_mapping(3, loc("b.ds", 2, 1));
    assert_eq!(map.get_location(3), Some(&loc("b.ds", 2, 1)));
    assert_eq!(map.get_location(0), Some(&loc("a.ds", 1, 1)));
}

#[test]
fn leaving_a_scope_forgets_its_values() {
    let mut r = Resolver::new();
    let point = Expression::Ident("Point".to_string());
    r.declare_type("Point");
    assert!(r.is_static_receiver(&point));
    r.enter_scope();
    r.declare_value("Point");
    assert!(!r.is_static_receiver(&point));
    r.leave_scope();
    assert!(r.is_static_receiver(&point));
}

#[test]
fn indents_and_dedents_balance() {
    let src = "def f():\n    if x:\n        if y:\n            z\n    w\n";
    let tokens = tokenize(src).unwrap();
    let indents = tokens.iter().filter(|t| t.0 == Token::Indent).count();
    let dedents = tokens.iter().filter(|t| t.0 == Token::Dedent).count();
    assert_eq!(indents, 3);
    assert_eq!(dedents, 3);
}

#[test]
fn aliased_rust_import_binds_its_alias() {
    let aliased = rust_use_from_import("rust/std/collections/HashMap", Some("Map")).unwrap();
    assert_eq!(aliased, "std::collections::HashMap as Map");
    assert_eq!(rust_import_binding_name(&aliased), Some("Map"));
    assert_eq!(
        rust_use_from_import("rust/std/cmp/max", None),
        rust_use_from_import_path("rust/std/cmp/max")
    );
}

#[test]
fn generated_lines_map_back_to_their_statements() {
    let src = "def main():\n    let x = 1\n    let y = 2\n";
    let tokens = tokenize(src).unwrap();
    let (_, program) = parse_program(&tokens).unwrap();
    let origins = line_origins_for_file("m.ds", src);
    let (rust, map) = Transpiler::new().transpile_with_origins(&program, src, &origins);
    assert_eq!(rust, "fn main() {\n    let x = 1;\n    let y = 2;\n}\n");
    assert_eq!(map.get_location(0), Some(&loc("m.ds", 1, 1)));
    assert_eq!(map.get_location(1), Some(&loc("m.ds", 2, 1)));
    assert_eq!(map.get_location(2), Some(&loc("m.ds", 3, 1)));
    assert_eq!(map.get_location_for_span(2, 9), Some(loc("m.ds", 3, 9)));
    assert_eq!(map.get_location(3), Some(&loc("m.ds", 1, 1)));
}

fn span(line: usize, column: usize) -> DiagnosticSpan {
    DiagnosticSpan { line_start: line, line_end: line, file_name: "main.rs".to_string(), column_start: column }
}

#[test]
fn translated_messages_use_desert_paths_and_list_each_location_once() {
    let mut map = SourceMap::new();
    map.add_mapping(0, loc("m.ds", 1, 1));
    let d = Diagnostic {
        message: "expected `Vec<i32>` in std::vec:::x".to_string(),
        code: None,
        spans: vec![span(1, 1), span(1, 1), span(2, 1)],
    };
    assert_eq!(
        Mirage::translate_error(&d, &map),
        "expected `List<i32>` in std.vec.:x\n  m.ds:1:1: in Desert source"
    );
}

#[test]
fn the_last_mapping_for_a_line_wins() {
    let mut map = SourceMap::new();
    map.add_mapping(1, loc("a.ds", 1, 1));
    map.add_mapping(2, loc("a.ds", 2, 1));
    map.add_mapping_with_rust_column(1, loc("b.ds", 4, 2), 5);
    assert_eq!(map.get_location(1), Some(&loc("b.ds", 4, 2)));
    assert_eq!(map.get_location_for_span(1, 3), Some(loc("b.ds", 4, 2)));
    assert_eq!(map.get_location_for_span(1, 8), Some(loc("b.ds", 4, 5)));
    assert_eq!(map.get_location(2), Some(&loc("a.ds", 2, 1)));
}

#[test]
fn dedents_never_outrun_indents() {
    let tokens = tokenize("if a:\n    if b:\n        c\nd\nif e:\n    f\n").unwrap();
    let mut depth: i64 = 0;
    for t in &tokens {
        if t.0 == Token::Indent {
            depth += 1;
        }
        if t.0 == Token::Dedent {
            depth -= 1;
        }
        assert!(depth >= 0);
    }
    assert_eq!(depth, 0);
    let same = tokenize("let x = 10\ndef foo():\n    x\n").unwrap();
    assert_eq!(same[4].0, Token::Def);
}
