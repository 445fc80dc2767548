use desert::lexer::tokenize;
use desert::parser::parse_program;
use desert::transpiler::Transpiler;

    #[test]

    fn test_transpile_basic() {
        let input = "let x = 10\ndef foo(y):\n    let z = y\n    z";

        let tokens = tokenize(input).unwrap();

        let (_, program) = parse_program(&tokens).unwrap();

        let transpiler = Transpiler::new();

        let (rust_code, _) = transpiler.transpile(&program, input);

        let expected = "let x = 10;\nfn foo(y) {\n    let z = y;\n    z;\n}\n";

        assert_eq!(rust_code, expected);
    }

    #[test]

    fn test_transpile_factorial() {
        let input = "

    def factorial(n):

        if n == 0:

            return 1

        return n * factorial(n - 1)

    ";

        let tokens = tokenize(input.trim()).unwrap();

        let (_, program) = parse_program(&tokens).unwrap();

        let transpiler = Transpiler::new();

        let (rust_code, _) = transpiler.transpile(&program, input.trim());

        let expected = "fn factorial(n) -> impl std::fmt::Debug {\n    if (n == 0) {\n        return 1;\n    }\n    return (n * factorial((n - 1)));\n}\n";

        assert_eq!(rust_code, expected);
    }

    #[test]

    fn test_transpile_hello_world() {
        let input = "def main():\n    $print(\"Hello, Desert!\")";

        let tokens = tokenize(input).unwrap();

        let (_, program) = parse_program(&tokens).unwrap();

        let transpiler = Transpiler::new();

        let (rust_code, _) = transpiler.transpile(&program, input);

        let expected = "fn main() {\n    println!(\"{}\", \"Hello, Desert!\".to_string());\n}\n";

        assert_eq!(rust_code, expected);
    }

    #[test]
    fn test_transpile_print_with_interpolation_and_field_access() {
        let input = "def main():\n    $print(\"port {cfg.port}\")";
        let tokens = tokenize(input).unwrap();
        let (_, program) = parse_program(&tokens).unwrap();
        let transpiler = Transpiler::new();
        let (rust_code, _) = transpiler.transpile(&program, input);
        let expected = "fn main() {\n    println!(\"{}\", format!(\"port {:?}\", cfg.port));\n}\n";
        assert_eq!(rust_code, expected);
    }

    #[test]
    fn test_transpile_print_with_multiple_arguments() {
        let input = "def main():\n    $print(\"x\", val, list)";
        let tokens = tokenize(input).unwrap();
        let (_, program) = parse_program(&tokens).unwrap();
        let transpiler = Transpiler::new();
        let (rust_code, _) = transpiler.transpile(&program, input);
        let expected = "fn main() {\n    println!(\"{}\", vec![\"x\".to_string(), format!(\"{:?}\", val), format!(\"{:?}\", list)].join(\" \"));\n}\n";
        assert_eq!(rust_code, expected);
    }

    #[test]
    fn test_transpile_matmul_operator() {
        let input = "def main():\n    let out = a @ b";
        let tokens = tokenize(input).unwrap();
        let (_, program) = parse_program(&tokens).unwrap();
        let transpiler = Transpiler::new();
        let (rust_code, _) = transpiler.transpile(&program, input);
        assert!(rust_code.contains("fn desert_matmul"));
        assert!(rust_code.contains("let out = desert_matmul((a).clone(), (b).clone());"));
    }

    #[test]

    fn test_transpile_types() {
        let input = "let x: List[i32] = [1, 2, 3]";

        let tokens = tokenize(input).unwrap();

        let (_, program) = parse_program(&tokens).unwrap();

        let transpiler = Transpiler::new();

        let (rust_code, _) = transpiler.transpile(&program, input);

        assert_eq!(rust_code, "let x: Vec<i32> = vec![1, 2, 3];\n");
    }

    #[test]

    fn test_transpile_borrows() {
        let input = "def foo(x: &i32, y: ~List[f32]) -> i32:\n    return 0";

        let tokens = tokenize(input).unwrap();

        let (_, program) = parse_program(&tokens).unwrap();

        let transpiler = Transpiler::new();

        let (rust_code, _) = transpiler.transpile(&program, input);

        assert_eq!(
            rust_code,
            "fn foo(x: &i32, y: &mut Vec<f32>) -> i32 {\n    return 0;\n}\n"
        );
    }

    #[test]

    fn test_transpile_unified_dot() {
        let input = "let x = Path.new(\"foo\")\nlet y = x.exists()";

        let tokens = tokenize(input).unwrap();

        let (_, program) = parse_program(&tokens).unwrap();

        let transpiler = Transpiler::new();

        let (rust_code, _) = transpiler.transpile(&program, input);

        assert_eq!(
            rust_code,
            "let x = Path::new(\"foo\".to_string());\nlet y = x.exists();\n"
        );
    }

    #[test]
    fn test_transpile_if_else() {
        let input = "if x > 0:\n    return 1\nelse:\n    return 0";
        let tokens = tokenize(input).unwrap();
        let (_, program) = parse_program(&tokens).unwrap();
        let transpiler = Transpiler::new();
        let (rust_code, _) = transpiler.transpile(&program, input);
        let expected = "if (x > 0) {\n    return 1;\n} else {\n    return 0;\n}\n";
        assert_eq!(rust_code, expected);
    }

    #[test]
    fn test_transpile_struct() {
        let input = "struct Point:\n    x: i32\n    y: i32";
        let tokens = tokenize(input).unwrap();
        let (_, program) = parse_program(&tokens).unwrap();
        let transpiler = Transpiler::new();
        let (rust_code, _) = transpiler.transpile(&program, input);
        let expected = "struct Point {\n    pub x: i32,\n    pub y: i32,\n}\n";
        assert_eq!(rust_code, expected);
    }

    #[test]
    fn test_transpile_struct_constructor_positional() {
        let input = "struct Point:\n    x: i32\n    y: i32\nlet p = Point(1, 2)";
        let tokens = tokenize(input).unwrap();
        let (_, program) = parse_program(&tokens).unwrap();
        let transpiler = Transpiler::new();
        let (rust_code, _) = transpiler.transpile(&program, input);
        let expected =
            "struct Point {\n    pub x: i32,\n    pub y: i32,\n}\nlet p = Point { x: 1, y: 2 };\n";
        assert_eq!(rust_code, expected);
    }

    #[test]
    fn test_transpile_struct_constructor_named() {
        let input = "struct Scale:\n    factor: f64\nlet s = Scale(factor=1.5)";
        let tokens = tokenize(input).unwrap();
        let (_, program) = parse_program(&tokens).unwrap();
        let transpiler = Transpiler::new();
        let (rust_code, _) = transpiler.transpile(&program, input);
        let expected = "struct Scale {\n    pub factor: f64,\n}\nlet s = Scale { factor: 1.5 };\n";
        assert_eq!(rust_code, expected);
    }

    #[test]
    fn test_transpile_protocol() {
        let input = "protocol Speak:\n    def talk(self) -> Str:\n        return \"\"";
        let tokens = tokenize(input).unwrap();
        let (_, program) = parse_program(&tokens).unwrap();
        let transpiler = Transpiler::new();
        let (rust_code, _) = transpiler.transpile(&program, input);
        let expected = "trait Speak {\n    fn talk(&self) -> String {\n        return \"\".to_string();\n    }\n}\n";
        assert_eq!(rust_code, expected);
    }

    #[test]
    fn test_transpile_impl() {
        let input = "impl Speak for Dog:\n    def talk(self) -> Str:\n        return \"Woof\"";
        let tokens = tokenize(input).unwrap();
        let (_, program) = parse_program(&tokens).unwrap();
        let transpiler = Transpiler::new();
        let (rust_code, _) = transpiler.transpile(&program, input);
        let expected =
            "impl Speak for Dog {\n    fn talk(&self) -> String {\n        return \"Woof\".to_string();\n    }\n}\n";
        assert_eq!(rust_code, expected);
    }

    #[test]
    fn test_transpile_mut_self_receiver() {
        let input = "impl Counter:\n    def inc(mut self):\n        self.value = self.value + 1";
        let tokens = tokenize(input).unwrap();
        let (_, program) = parse_program(&tokens).unwrap();
        let transpiler = Transpiler::new();
        let (rust_code, _) = transpiler.transpile(&program, input);
        let expected = "impl Counter {\n    fn inc(&mut self) {\n        (self.value = (self.value + 1));\n    }\n}\n";
        assert_eq!(rust_code, expected);
    }

    #[test]
    fn test_transpile_error_ops() {
        let input = "let x = foo()?\nlet y = bar()!!";
        let tokens = tokenize(input).unwrap();
        let (_, program) = parse_program(&tokens).unwrap();
        let transpiler = Transpiler::new();
        let (rust_code, _) = transpiler.transpile(&program, input);
        let expected = "let x = foo()?;\nlet y = bar().unwrap();\n";
        assert_eq!(rust_code, expected);
    }

    #[test]
    fn test_transpile_pyimport() {
        let input = "pyimport:\n    import torch";
        let tokens = tokenize(input).unwrap();
        let (_, program) = parse_program(&tokens).unwrap();
        let transpiler = Transpiler::new();
        let (rust_code, _) = transpiler.transpile(&program, input);
        assert!(rust_code.contains("/* Desert PyImport block:"));
        assert!(rust_code.contains("import torch"));
    }

    #[test]
    fn test_transpile_nested_control_flow() {
        let input = "if x:\n    for i in list:\n        $print(i)";
        let tokens = tokenize(input).unwrap();
        let (_, program) = parse_program(&tokens).unwrap();
        let transpiler = Transpiler::new();
        let (rust_code, _) = transpiler.transpile(&program, input);
        assert!(rust_code.contains("if x {"));
        assert!(rust_code.contains("for i in list {"));
    }

    #[test]
    fn test_transpile_complex_generic_call() {
        let input = "obj.method[T1, T2](arg1, arg2)";
        let tokens = tokenize(input).unwrap();
        let (_, program) = parse_program(&tokens).unwrap();
        let transpiler = Transpiler::new();
        let (rust_code, _) = transpiler.transpile(&program, input);
        assert!(rust_code.contains("obj.method::<T1, T2>(arg1, arg2)"));
    }
