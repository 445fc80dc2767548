use desert::lexer::tokenize;
use desert::parser::parse_program;
use desert::project::{
    build_input_source, check_import_cycle, file_imports, line_origins_for_file, manifest_text, project_entry, project_name,
    ImportGraph,
};

fn lines_of(locs: &[desert::sourcemap::SourceLocation]) -> Vec<(String, usize, usize)> {
    locs.iter().map(|l| (l.file.clone(), l.line, l.column)).collect()
}

#[test]
fn line_origins_follow_str_lines() {
    assert_eq!(
        lines_of(&line_origins_for_file("a.ds", "x\ny\n")),
        vec![("a.ds".to_string(), 1, 1), ("a.ds".to_string(), 2, 1)]
    );
    assert_eq!(line_origins_for_file("a.ds", "x\n\ny").len(), 3);
    assert_eq!(line_origins_for_file("a.ds", "").len(), 0);
    assert_eq!(line_origins_for_file("a.ds", "\n").len(), 1);
}

#[test]
fn sources_are_joined_on_line_boundaries() {
    let files = vec!["a.ds".to_string(), "b.ds".to_string(), "c.ds".to_string()];
    let pieces = vec!["let a = 1".to_string(), "let b = 2\n".to_string(), "let c = 3".to_string()];
    let (content, origins) = build_input_source(&files, &pieces);
    assert_eq!(content, "let a = 1\nlet b = 2\nlet c = 3");
    assert_eq!(
        lines_of(&origins),
        vec![
            ("a.ds".to_string(), 1, 1),
            ("b.ds".to_string(), 1, 1),
            ("c.ds".to_string(), 1, 1),
        ]
    );
    assert_eq!(content.lines().count(), origins.len());
}

#[test]
fn empty_pieces_add_nothing_but_a_line_end() {
    let files = vec!["a.ds".to_string(), "b.ds".to_string()];
    let pieces = vec!["x".to_string(), "".to_string()];
    let (content, origins) = build_input_source(&files, &pieces);
    assert_eq!(content, "x\n");
    assert_eq!(origins.len(), 1);
}

#[test]
fn import_cycle_is_reported_from_its_first_file() {
    let loading = vec!["a.ds".to_string(), "b.ds".to_string(), "c.ds".to_string()];
    assert_eq!(
        check_import_cycle("b.ds", &loading),
        Err("import cycle detected: b.ds -> c.ds -> b.ds".to_string())
    );
    assert_eq!(check_import_cycle("d.ds", &loading), Ok(()));
}

#[test]
fn graph_walk_orders_imports_first_and_once() {
    let mut g = ImportGraph::new();
    assert_eq!(g.enter("main.ds"), Ok(true));
    assert_eq!(g.enter("util.ds"), Ok(true));
    assert_eq!(
        g.enter("main.ds"),
        Err("import cycle detected: main.ds -> util.ds -> main.ds".to_string())
    );
    g.leave();
    assert_eq!(g.enter("util.ds"), Ok(false));
    g.leave();
    assert_eq!(g.into_order(), vec!["util.ds".to_string(), "main.ds".to_string()]);
}

#[test]
fn file_imports_skip_rust_imports() {
    let src = "import \"util/math.ds\"\nimport util.ops\nimport rust.std.cmp.max\n";
    let tokens = tokenize(src).unwrap();
    let (_, program) = parse_program(&tokens).unwrap();
    assert_eq!(file_imports(&program), vec!["util/math.ds".to_string(), "util/ops".to_string()]);
}

#[test]
fn new_projects_are_named_after_their_directory() {
    assert_eq!(project_name(Some("my-app")), "my_app");
    assert_eq!(project_name(Some("")), "desert_app");
    assert_eq!(project_name(None), "desert_app");
    assert_eq!(
        manifest_text("my_app"),
        "[package]\nname = \"my_app\"\nentry = \"src/main.ds\"\n"
    );
}

#[test]
fn project_entry_prefers_the_manifest_then_the_fallbacks() {
    assert_eq!(project_entry(Some(Some("app/start.ds")), true, true), Some("app/start.ds".to_string()));
    assert_eq!(project_entry(Some(None), false, false), Some("src/main.ds".to_string()));
    assert_eq!(project_entry(None, true, true), Some("src/main.ds".to_string()));
    assert_eq!(project_entry(None, false, true), Some("main.ds".to_string()));
    assert_eq!(project_entry(None, false, false), None);
}
