use desert::lexer::{tokenize, Token};
use desert::parser::parse_program;
use desert::report::{lexing_error_message, line_col_from_offset, parse_error_location, parse_source};
use desert::semantic::validate_program;

fn check(src: &str) -> Result<(), String> {
    let tokens = tokenize(src).unwrap();
    let (_, program) = parse_program(&tokens).unwrap();
    validate_program(src, &program)
}

fn rejects(src: &str, message: &str) {
    assert_eq!(check(src), Err(message.to_string()));
}

#[test]
fn accepts_well_formed_program() {
    let src = "struct Pair:\n    a: i32\n    b: i32\n\ndef add(x, y):\n    return x + y\n\ndef main():\n    mut total = add(1, 2)\n    total = total + 1\n    let p = Pair(a = 1, b = 2)\n    let q = Pair(3, 4)\n    for i in 0..3:\n        total = total + i\n    $print(\"{total}\")\n";
    assert_eq!(check(src), Ok(()));
}

#[test]
fn move_requires_mutable_binding() {
    rejects(
        "def main():\n    let xs = 1\n    let ys = move xs\n",
        "Semantic error at line 3, column 5: `move` requires mutable binding `xs` (declare with `mut` first)",
    );
}

#[test]
fn unique_ref_requires_mutable_binding() {
    rejects(
        "let x = 1\nlet y = ~x\n",
        "Semantic error at line 2, column 1: `~` requires mutable binding `x` (declare with `mut` first)",
    );
}

#[test]
fn move_requires_place_expression() {
    rejects(
        "def main():\n    let y = move 1\n",
        "Semantic error at line 2, column 5: `move` expects a mutable place expression (`x`, `obj.field`, or `items[i]`)",
    );
}

#[test]
fn unique_ref_requires_place_expression() {
    rejects(
        "def main():\n    let y = ~(1 + 2)\n",
        "Semantic error at line 2, column 5: `~` expects a mutable place expression (`x`, `obj.field`, or `items[i]`)",
    );
}

#[test]
fn unique_ref_allows_write_through() {
    let src = "struct Counter:\n    value: i32\n\ndef main():\n    mut c = Counter(value = 0)\n    let r = ~c\n    r.value = 1\n    let v = move r.value\n";
    assert_eq!(check(src), Ok(()));
}

#[test]
fn write_through_shared_binding_is_rejected() {
    rejects(
        "struct Counter:\n    value: i32\n\ndef main():\n    let c = Counter(value = 0)\n    c.value = 1\n",
        "Semantic error at line 6, column 5: assignment through `c` requires mutable root binding or a unique reference (`~`)",
    );
}

#[test]
fn assignment_requires_mutable_binding() {
    rejects(
        "def main():\n    let x = 1\n    x = 2\n",
        "Semantic error at line 3, column 5: assignment requires mutable binding `x` (declare with `mut` first)",
    );
}

#[test]
fn assignment_requires_place_expression() {
    rejects(
        "def main():\n    mut x = 1\n    x + 1 = 2\n",
        "Semantic error at line 3, column 5: assignment expects a place expression on the left side (`x`, `obj.field`, or `items[i]`)",
    );
}

#[test]
fn constructor_unknown_field() {
    rejects(
        "struct Pair:\n    a: i32\n    b: i32\n\ndef main():\n    let p = Pair(a = 1, c = 2)\n",
        "Semantic error at line 6, column 5: constructor `Pair` has no field `c`",
    );
}

#[test]
fn constructor_duplicate_field() {
    rejects(
        "struct Pair:\n    a: i32\n    b: i32\n\ndef main():\n    let p = Pair(a = 1, a = 2)\n",
        "Semantic error at line 6, column 5: constructor `Pair` received duplicate field `a`",
    );
}

#[test]
fn constructor_too_many_positional_arguments() {
    rejects(
        "struct Pair:\n    a: i32\n    b: i32\n\ndef main():\n    let p = Pair(1, 2, 3)\n",
        "Semantic error at line 6, column 5: constructor `Pair` received too many positional arguments",
    );
}

#[test]
fn constructor_missing_fields() {
    rejects(
        "struct Pair:\n    a: i32\n    b: i32\n\ndef main():\n    let p = Pair(a = 1)\n",
        "Semantic error at line 6, column 5: constructor `Pair` is missing fields: b",
    );
}

#[test]
fn nested_import_is_rejected() {
    rejects(
        "def main():\n    import rust.std.cmp.max\n",
        "Semantic error at line 2, column 5: `import` is only allowed at top level",
    );
}

#[test]
fn rust_imports_bind_their_names() {
    let src = "import rust.std.cmp.max\nfrom rust.std.cmp import min as smallest\nfrom rust.core.cmp import max as largest\n\ndef main():\n    let a = max(1, 2)\n    let b = smallest(1, 2)\n    let c = largest(1, 2)\n";
    assert_eq!(check(src), Ok(()));
}

#[test]
fn unsupported_rust_import_root_is_rejected() {
    rejects(
        "import rust.serde.Serialize\n",
        "Semantic error at line 1, column 1: unsupported rust import root `serde` (only std/core/alloc are supported)",
    );
}

#[test]
fn aliasing_file_import_is_rejected() {
    rejects(
        "import \"util/math.ds\" as m\n",
        "Semantic error at line 1, column 1: aliasing non-rust imports is unsupported (use plain `import \"path\"`)",
    );
}

#[test]
fn aliasing_file_from_import_items_is_rejected() {
    rejects(
        "from util.math import add as plus\n",
        "Semantic error at line 1, column 1: aliasing non-rust from-import items is unsupported (remove `as ...`)",
    );
}

#[test]
fn non_rust_from_import_is_rejected() {
    rejects(
        "from util.math import add\n",
        "Semantic error at line 1, column 1: non-rust `from ... import ...` is unsupported (use plain `import \"path\"`)",
    );
}

#[test]
fn duplicate_from_import_items_are_rejected() {
    rejects(
        "from rust.std.cmp import max, max\n",
        "Semantic error at line 1, column 1: duplicate from-import item `max`",
    );
}

#[test]
fn return_outside_def_is_rejected() {
    rejects(
        "return 1\n",
        "Semantic error at line 1, column 1: `return` is only allowed inside `def` bodies",
    );
}

#[test]
fn duplicate_parameters_are_rejected() {
    rejects(
        "def f(x, x):\n    return x\n",
        "Semantic error at line 1, column 1: duplicate parameter `x` in function signature",
    );
}

#[test]
fn duplicate_local_binding_is_rejected() {
    rejects(
        "def main():\n    let x = 1\n    let x = 2\n",
        "Semantic error at line 3, column 5: duplicate local binding `x` in same scope",
    );
}

#[test]
fn inner_block_may_shadow() {
    assert_eq!(check("def main():\n    let x = 1\n    if x > 0:\n        let x = 2\n"), Ok(()));
}

#[test]
fn unknown_identifier_is_rejected() {
    rejects(
        "def main():\n    let y = missing\n",
        "Semantic error at line 2, column 5: unknown identifier `missing`",
    );
}

#[test]
fn top_level_call_arity_mismatch() {
    rejects(
        "def add(a, b):\n    return a + b\n\ndef main():\n    let x = add(1)\n",
        "Semantic error at line 5, column 5: call to `add` expects 2 argument(s), found 1",
    );
}

#[test]
fn local_forward_call_arity_mismatch() {
    rejects(
        "def main():\n    let x = helper(1, 2)\n    def helper(a):\n        return a\n",
        "Semantic error at line 2, column 5: call to `helper` expects 1 argument(s), found 2",
    );
}

#[test]
fn duplicate_local_def_is_rejected() {
    rejects(
        "def main():\n    def helper():\n        return 1\n    def helper():\n        return 2\n",
        "Semantic error at line 4, column 5: duplicate local name `helper` in same scope",
    );
}

#[test]
fn duplicate_top_level_function_is_rejected() {
    rejects(
        "def foo():\n    return 1\n\ndef foo():\n    return 2\n",
        "Semantic error at line 4, column 1: duplicate top-level function `foo`",
    );
}

#[test]
fn top_level_name_collision_across_kinds() {
    rejects(
        "def Foo():\n    return 1\n\nstruct Foo:\n    x: i32\n",
        "Semantic error at line 4, column 1: top-level name `Foo` is already declared as function",
    );
}

#[test]
fn duplicate_struct_fields_are_rejected() {
    rejects(
        "struct Pair:\n    x: i32\n    x: i32\n",
        "Semantic error at line 1, column 1: duplicate field `x` in struct `Pair`",
    );
}

const COUNTER: &str = "struct Counter:\n    value: i32\n\n";

#[test]
fn duplicate_impl_methods_are_rejected() {
    let src = format!("{COUNTER}impl Counter:\n    def bump(mut self):\n        return 1\n    def bump(mut self):\n        return 2\n");
    rejects(&src, "Semantic error at line 7, column 5: duplicate method `bump` in impl for `Counter`");
}

#[test]
fn impl_body_holds_only_methods() {
    let src = format!("{COUNTER}impl Counter:\n    let x = 1\n");
    rejects(&src, "Semantic error at line 5, column 5: impl for `Counter` can only contain `def` method declarations");
}

#[test]
fn impl_of_unknown_protocol_is_rejected() {
    let src = "struct Dog:\n    name: i32\n\nimpl Speak for Dog:\n    def speak(self):\n        return 1\n";
    rejects(src, "Semantic error at line 4, column 1: impl references unknown protocol `Speak`");
}

#[test]
fn impl_of_unknown_target_is_rejected() {
    let src = "impl Dog:\n    def speak(self):\n        return 1\n";
    rejects(src, "Semantic error at line 1, column 1: impl target `Dog` must be a declared struct");
}

const SPEAK: &str = "protocol Speak:\n    def speak(self) -> i32:\n        return 0\n\nstruct Dog:\n    name: i32\n\n";

#[test]
fn impl_of_unknown_protocol_method_is_rejected() {
    let src = format!("{SPEAK}impl Speak for Dog:\n    def speak(self) -> i32:\n        return 1\n    def bark(self):\n        return 2\n");
    rejects(&src, "Semantic error at line 11, column 5: impl for protocol `Speak` on `Dog` defines unknown method `bark`");
}

#[test]
fn impl_missing_protocol_method_is_rejected() {
    let src = "protocol Runner:\n    def start(self):\n        return 0\n    def stop(self):\n        return 0\n\nstruct Worker:\n    id: i32\n\nimpl Runner for Worker:\n    def start(self):\n        return 1\n";
    rejects(src, "Semantic error at line 10, column 1: impl for protocol `Runner` on `Worker` is missing methods: stop");
}

#[test]
fn impl_parameter_count_mismatch() {
    let src = format!("{SPEAK}impl Speak for Dog:\n    def speak(self, loud) -> i32:\n        return 1\n");
    rejects(&src, "Semantic error at line 9, column 5: impl for protocol `Speak` on `Dog` has incompatible signature for method `speak`: expected 1 parameter(s), found 2");
}

#[test]
fn impl_parameter_mutability_mismatch() {
    let src = format!("{SPEAK}impl Speak for Dog:\n    def speak(mut self) -> i32:\n        return 1\n");
    rejects(&src, "Semantic error at line 9, column 5: impl for protocol `Speak` on `Dog` has incompatible signature for method `speak`: parameter 1 mutability mismatch (expected `non-mut`, found `mut`)");
}

#[test]
fn impl_return_type_mismatch() {
    let src = format!("{SPEAK}impl Speak for Dog:\n    def speak(self) -> bool:\n        return true\n");
    rejects(&src, "Semantic error at line 9, column 5: impl for protocol `Speak` on `Dog` has incompatible signature for method `speak`: return type mismatch (expected `Simple(\"i32\")`, found `Simple(\"bool\")`)");
}

#[test]
fn impl_of_protocol_is_accepted() {
    let src = format!("{SPEAK}impl Speak for Dog:\n    def speak(self) -> i32:\n        return self.name\n");
    assert_eq!(check(&src), Ok(()));
}

#[test]
fn match_arm_binders_are_scoped_to_their_arm() {
    let ok = "def main():\n    let v = Some(1)\n    match v:\n        Some(n):\n            let m = n\n        None:\n            let m = 0\n";
    assert_eq!(check(ok), Ok(()));
    let leaked = "def main():\n    let v = Some(1)\n    match v:\n        Some(n):\n            let m = n\n    let k = n\n";
    rejects(leaked, "Semantic error at line 6, column 5: unknown identifier `n`");
}

#[test]
fn line_col_counts_bytes_to_lines_and_characters_to_columns() {
    assert_eq!(line_col_from_offset("abc\ndef", 0), (1, 1));
    assert_eq!(line_col_from_offset("abc\ndef", 5), (2, 2));
    assert_eq!(line_col_from_offset("abc\ndef", 4), (2, 1));
    assert_eq!(line_col_from_offset("abc\ndef", 100), (2, 4));
    assert_eq!(line_col_from_offset("é\nx", 2), (1, 2));
    assert_eq!(line_col_from_offset("é\nx", 3), (2, 1));
    assert_eq!(line_col_from_offset("é\nx", 4), (2, 2));
}

#[test]
fn lexing_errors_name_the_unreadable_text() {
    let src = "let x = 1\nlet y = 2 ^ 3\n";
    let span = tokenize(src).unwrap_err();
    assert_eq!(
        lexing_error_message(src, span.start, span.end),
        "Lexing error at line 2, column 11 near '^'"
    );
    assert_eq!(lexing_error_message("ab", 5, 9), "Lexing error at line 1, column 3 near '<unknown>'");
}

#[test]
fn parse_errors_are_located_at_their_token() {
    let src = "def main()\n    return 1\n";
    let tokens = tokenize(src).unwrap();
    let err = parse_program(&tokens).unwrap_err();
    assert_eq!(err.position, 0);
    assert_eq!(tokens[err.position].0, Token::Def);
    assert_eq!(parse_error_location(src, &tokens, err.position), Some((1, 1)));
    assert_eq!(parse_error_location(src, &tokens, 4), Some(line_col_from_offset(src, tokens[4].1.start)));
    assert_eq!(parse_error_location(src, &tokens, tokens.len()), None);
}

#[test]
fn reading_a_source_reports_where_it_stopped() {
    assert_eq!(parse_source("let x = 1\n").map(|p| p.statements.len()), Ok(1));
    assert_eq!(
        parse_source("let x = 1\nlet y = 2 ^ 3\n").unwrap_err(),
        (2, 11, "Lexing error at line 2, column 11 near '^'".to_string())
    );
    assert_eq!(
        parse_source("let s = \"é\" ^\n").unwrap_err(),
        (1, 13, "Lexing error at line 1, column 13 near '^'".to_string())
    );
    assert_eq!(
        parse_source("def main()\n    return 1\n").unwrap_err(),
        (1, 1, "Parsing error at line 1, column 1 near token Def".to_string())
    );
}

#[test]
fn semantic_errors_after_non_ascii_text_are_located_by_line() {
    rejects(
        "let s = \"é\"\nlet y = missing\n",
        "Semantic error at line 2, column 1: unknown identifier `missing`",
    );
}
