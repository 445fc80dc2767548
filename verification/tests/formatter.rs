use desert::formatter::format_program;
use desert::lexer::tokenize;
use desert::parser::parse_program;

fn fmt(input: &str) -> String {
    let tokens = tokenize(input).unwrap();
    let (_, program) = parse_program(&tokens).unwrap();
    format_program(&program)
}

#[test]
fn formatter_round_trip_basic_program() {
    let input = "def main():\n    mut x=1\n    if x>0:\n        $print(\"ok\")\n";
    let tokens = tokenize(input).unwrap();
    let (_, program) = parse_program(&tokens).unwrap();
    let out = format_program(&program);
    assert_eq!(
        out,
        "def main():\n    mut x = 1\n    if x > 0:\n        $print(\"ok\")\n"
    );
}

#[test]
fn formatter_parenthesizes_by_precedence() {
    assert_eq!(fmt("let x = (1 + 2) * 3"), "let x = (1 + 2) * 3\n");
    assert_eq!(fmt("let x = 1 + 2 * 3"), "let x = 1 + 2 * 3\n");
    assert_eq!(fmt("let x = not (a and b)"), "let x = not (a and b)\n");
}

#[test]
fn formatter_writes_declarations() {
    let input = "struct P:\n    x: i32\n    y: List[i32]\nenum C:\n    Red\n    Rgb(u8, u8, u8)\nimpl Show for P:\n    def show(self) -> Str:\n        return \"p\"\n";
    assert_eq!(fmt(input), input);
}

#[test]
fn formatter_writes_imports_and_loops() {
    let input = "import \"util/math.ds\"\nfrom \"rust/std/cmp\" import max as m, min\nfor (a, b) in pairs:\n    while a < b:\n        break\n";
    assert_eq!(fmt(input), input);
}

#[test]
fn formatter_is_idempotent_on_its_output() {
    let once = fmt("def f(mut a: &i32, b):\n  return a+b\nmatch x:\n  Some(v):\n    $print(v)\n  None:\n    return\n");
    assert_eq!(fmt(&once), once);
}

#[test]
fn formatter_keeps_string_contents_as_written() {
    assert_eq!(fmt("let s = \"a\\tb\""), "let s = \"a\\tb\"\n");
    let once = fmt("let s = \"say \\\"hi\\\"\\n\"");
    assert_eq!(once, "let s = \"say \\\"hi\\\"\\n\"\n");
    assert_eq!(fmt(&once), once);
}

#[test]
fn formatting_is_stable() {
    let once = fmt("def main():\n    mut x=1\n    while x<3:\n        x=x+1\n    let y = (x+1)*2\n");
    assert_eq!(fmt(&once), once);
}

#[test]
fn formatting_is_stable_across_forms() {
    let sources = [
        "let x: List[i32] = [1, 2, 3]",
        "def foo(x: &i32, y: ~List[f32]) -> i32:\n    return 0",
        "if x > 0:\n    return 1\nelse:\n    return 0",
        "import \"utils/math.ds\"\nimport utils.math\nimport rust.std.collections.HashMap as Map",
        "from rust.std.cmp import max as maximum, min",
        "struct Point:\n    x: i32\n    y: i32",
        "protocol Speak:\n    def talk(self) -> Str:\n        return \"\"",
        "impl Speak for Dog:\n    def talk(self) -> Str:\n        return \"Woof\"",
        "let x = foo()?\nlet y = bar()!!",
        "pyimport:\n    import torch\n    import numpy as np",
        "let x = (a + b) * (c - d) @ e.f[T](g)",
        "let x = -0.2\nlet y = 1.50\nlet z = 10",
        "match x:\n    Some(v):\n        $print(v)\n    None:\n        return",
        "let x: &i32 = &y\nlet y: ~i32 = ~z\nlet t = move y",
        "if x:\n    for i in list:\n        $print(\"{i}\\t\")",
        "let s = Scale(factor=1.5)\nobj.method[T1, T2](arg1, arg2)",
        "mut i = 0\nwhile i < 10 and not done or i % 2 == 0:\n    i = i + 1",
    ];
    for src in sources {
        let once = fmt(src);
        assert_eq!(fmt(&once), once, "not stable for {src:?}");
    }
}

fn let_value(src: &str) -> desert::ast::Expression {
    let tokens = tokenize(src).unwrap();
    let (_, program) = parse_program(&tokens).unwrap();
    match program.statements.into_iter().next().unwrap().kind {
        desert::ast::StatementKind::Let { value, .. } => value,
        _ => panic!("expected a let"),
    }
}

#[test]
fn formatting_keeps_what_the_source_parses_to() {
    let cases = [
        ("let x = a - (b - c)", "let x = a - (b - c)\n"),
        ("let x = (a - b) - c", "let x = a - b - c\n"),
        ("let x = a / (b * c) % d", "let x = a / (b * c) % d\n"),
        ("let x = a < (b < c)", "let x = a < (b < c)\n"),
        ("let x = (move a) + b", "let x = (move a) + b\n"),
        ("let x = move a + b", "let x = move (a + b)\n"),
        ("let r = 0..(1..2)", "let r = 0..(1..2)\n"),
        ("let x = (a or b) and not c", "let x = (a or b) and not c\n"),
    ];
    for (src, want) in cases {
        let out = fmt(src);
        assert_eq!(out, want, "for {src:?}");
        assert_eq!(let_value(&out), let_value(src), "for {src:?}");
    }
    assert_eq!(fmt("x = y = z"), "x = y = z\n");
    assert_eq!(fmt("(x = y) = z"), "(x = y) = z\n");
}

#[test]
fn formatting_depends_on_the_tree_alone() {
    let tight = "let x=1\nmut y=x+2\n";
    let loose = "let   x   =   1\nmut y  =  x  +  2\n";
    assert_eq!(fmt(tight), fmt(loose));
    assert_eq!(fmt(tight), "let x = 1\nmut y = x + 2\n");
}

fn kinds(src: &str) -> Vec<desert::ast::StatementKind> {
    let tokens = tokenize(src).unwrap();
    let (_, program) = parse_program(&tokens).unwrap();
    program.statements.into_iter().map(|s| s.kind).collect()
}

#[test]
fn formatted_lines_read_back() {
    let src = "let a = b - (c - 10)\nmut e = (f or g) and h\ne = (a = b) = 2\nlet i = j * (k + 0) / m\n";
    let out = fmt(src);
    assert_eq!(out, src);
    assert_eq!(kinds(&out), kinds("let a=b-(c-10)\nmut e=(f or g) and h\ne=(a=b)=2\nlet i=j*(k+0)/m\n"));
    assert_eq!(fmt(&out), out);
}
