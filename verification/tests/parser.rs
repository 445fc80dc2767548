use desert::ast::{Expression, Literal, StatementKind, Type};
use desert::lexer::tokenize;
use desert::parser::parse_program;

    #[test]

    fn test_parse_let() {
        let input = "let x = 10";

        let tokens = tokenize(input).unwrap();

        let (_, program) = parse_program(&tokens).unwrap();

        assert_eq!(program.statements.len(), 1);

        assert_eq!(program.statements[0].span, 0..10);
    }

    #[test]

    fn test_parse_def() {
        let input = "def foo(x, y):\n    let z = x\n    z";

        let tokens = tokenize(input).unwrap();

        let (_, program) = parse_program(&tokens).unwrap();

        assert_eq!(program.statements.len(), 1);
    }

    #[test]

    fn test_parse_factorial() {
        let input = "

    def factorial(n):

        if n == 0:

            return 1

        return n * factorial(n - 1)

    ";

        let tokens = tokenize(input.trim()).unwrap();

        let (_, program) = parse_program(&tokens).unwrap();

        assert_eq!(program.statements.len(), 1);
    }

    #[test]

    fn test_parse_types() {
        let input = "let x: List[i32] = [1, 2, 3]";

        let tokens = tokenize(input).unwrap();

        let (_, program) = parse_program(&tokens).unwrap();

        match &program.statements[0].kind {
            StatementKind::Let { ty, .. } => {
                assert!(matches!(ty, Some(Type::Generic(name, _)) if name == "List"));
            }

            _ => panic!("Expected Let statement"),
        }
    }

    #[test]

    fn test_parse_borrows() {
        let input = "def foo(x: &i32, y: ~List[f32]) -> i32:\n    return 0";

        let tokens = tokenize(input).unwrap();

        let (_, program) = parse_program(&tokens).unwrap();

        match &program.statements[0].kind {
            StatementKind::Def { params, .. } => {
                assert!(matches!(params[0].ty, Some(Type::SharedRef(_))));

                assert!(matches!(params[1].ty, Some(Type::UniqueRef(_))));
            }

            _ => panic!("Expected Def statement"),
        }
    }

    #[test]
    fn test_parse_if_else() {
        let input = "if x > 0:\n    return 1\nelse:\n    return 0";
        let tokens = tokenize(input).unwrap();
        let (_, program) = parse_program(&tokens).unwrap();
        match &program.statements[0].kind {
            StatementKind::If { else_block, .. } => {
                assert!(else_block.is_some());
            }
            _ => panic!("Expected If statement"),
        }
    }

    #[test]
    fn test_parse_import_string_path() {
        let input = "import \"utils/math.ds\"";
        let tokens = tokenize(input).unwrap();
        let (_, program) = parse_program(&tokens).unwrap();

        match &program.statements[0].kind {
            StatementKind::Import { path, alias } => {
                assert_eq!(path, "utils/math.ds");
                assert!(alias.is_none());
            }
            _ => panic!("Expected Import statement"),
        }
    }

    #[test]
    fn test_parse_import_dotted_path() {
        let input = "import utils.math";
        let tokens = tokenize(input).unwrap();
        let (_, program) = parse_program(&tokens).unwrap();

        match &program.statements[0].kind {
            StatementKind::Import { path, alias } => {
                assert_eq!(path, "utils/math");
                assert!(alias.is_none());
            }
            _ => panic!("Expected Import statement"),
        }
    }

    #[test]
    fn test_parse_import_alias() {
        let input = "import rust.std.collections.HashMap as Map";
        let tokens = tokenize(input).unwrap();
        let (_, program) = parse_program(&tokens).unwrap();

        match &program.statements[0].kind {
            StatementKind::Import { path, alias } => {
                assert_eq!(path, "rust/std/collections/HashMap");
                assert_eq!(alias.as_deref(), Some("Map"));
            }
            _ => panic!("Expected Import statement"),
        }
    }

    #[test]
    fn test_parse_from_import_with_aliases() {
        let input = "from rust.std.cmp import max as maximum, min";
        let tokens = tokenize(input).unwrap();
        let (_, program) = parse_program(&tokens).unwrap();

        match &program.statements[0].kind {
            StatementKind::FromImport { path, items } => {
                assert_eq!(path, "rust/std/cmp");
                assert_eq!(items.len(), 2);
                assert_eq!(items[0].name, "max");
                assert_eq!(items[0].alias.as_deref(), Some("maximum"));
                assert_eq!(items[1].name, "min");
                assert!(items[1].alias.is_none());
            }
            _ => panic!("Expected Import statement"),
        }
    }

    #[test]
    fn test_parse_struct() {
        let input = "struct Point:\n    x: i32\n    y: i32";
        let tokens = tokenize(input).unwrap();
        let (_, program) = parse_program(&tokens).unwrap();
        match &program.statements[0].kind {
            StatementKind::Struct { name, fields } => {
                assert_eq!(name, "Point");
                assert_eq!(fields.len(), 2);
            }
            _ => panic!("Expected Struct statement"),
        }
    }

    #[test]
    fn test_parse_protocol() {
        let input = "protocol Speak:\n    def talk(self) -> Str:\n        return \"\"";
        let tokens = tokenize(input).unwrap();
        let (_, program) = parse_program(&tokens).unwrap();
        match &program.statements[0].kind {
            StatementKind::Protocol { name, .. } => {
                assert_eq!(name, "Speak");
            }
            _ => panic!("Expected Protocol statement"),
        }
    }

    #[test]
    fn test_parse_impl() {
        let input = "impl Speak for Dog:\n    def talk(self) -> Str:\n        return \"Woof\"";
        let tokens = tokenize(input).unwrap();
        let (_, program) = parse_program(&tokens).unwrap();
        match &program.statements[0].kind {
            StatementKind::Impl {
                protocol, for_type, ..
            } => {
                assert_eq!(protocol, &Some("Speak".to_string()));
                assert_eq!(for_type, "Dog");
            }
            _ => panic!("Expected Impl statement"),
        }
    }

    #[test]
    fn test_parse_error_ops() {
        let input = "let x = foo()?\nlet y = bar()!!";
        let tokens = tokenize(input).unwrap();
        let (_, program) = parse_program(&tokens).unwrap();
        match &program.statements[0].kind {
            StatementKind::Let { value, .. } => {
                assert!(matches!(value, Expression::Question(_)));
            }
            _ => panic!("Expected Let with Question"),
        }
        match &program.statements[1].kind {
            StatementKind::Let { value, .. } => {
                assert!(matches!(value, Expression::Unwrap(_)));
            }
            _ => panic!("Expected Let with Unwrap"),
        }
    }
    #[test]
    fn test_parse_pyimport() {
        let input = "pyimport:\n    import torch\n    import numpy as np";
        let tokens = tokenize(input).unwrap();
        let (_, program) = parse_program(&tokens).unwrap();
        match &program.statements[0].kind {
            StatementKind::PyImport(content) => {
                assert!(content.contains("import torch"));
                assert!(content.contains("import numpy as np"));
            }
            _ => panic!("Expected PyImport statement"),
        }
    }

    #[test]
    fn test_parse_complex_expressions() {
        let input = "let x = (a + b) * (c - d) @ e.f[T](g)";
        let tokens = tokenize(input).unwrap();
        let (_, program) = parse_program(&tokens).unwrap();
        assert_eq!(program.statements.len(), 1);
    }

    #[test]
    fn test_parse_negative_float_literal() {
        let input = "let x = -0.2";
        let tokens = tokenize(input).unwrap();
        let (_, program) = parse_program(&tokens).unwrap();
        match &program.statements[0].kind {
            StatementKind::Let { value, .. } => {
                assert!(
                    matches!(value, Expression::Literal(Literal::Float(v)) if (v.parse::<f64>().unwrap() - (-0.2)).abs() < f64::EPSILON)
                );
            }
            _ => panic!("Expected Let statement"),
        }
    }

    #[test]
    fn test_parse_nested_control_flow() {
        let input = "
if x:
    for i in list:
        if i > 0:
            $print(i)
else:
    $print(\"none\")
";
        let tokens = tokenize(input.trim()).unwrap();
        let (_, program) = parse_program(&tokens).unwrap();
        assert_eq!(program.statements.len(), 1);
    }

    #[test]
    fn test_parse_keywords() {
        let input = "
let x = move data
let y = &x
let z = ~y
mut w = 10
";
        let tokens = tokenize(input.trim()).unwrap();
        let (_, program) = parse_program(&tokens).unwrap();
        assert_eq!(program.statements.len(), 4);
    }

    #[test]
    fn test_parse_impl_basic() {
        let input = "impl Foo:\n    def bar(self):\n        return 1";
        let tokens = tokenize(input).unwrap();
        let (_, program) = parse_program(&tokens).unwrap();
        assert_eq!(program.statements.len(), 1);
    }

    #[test]
    fn test_parse_match_basic() {
        let input = "match x:\n    Some(v):\n        $print(v)\n    None:\n        return";
        let tokens = tokenize(input).unwrap();
        let (_, program) = parse_program(&tokens).unwrap();
        assert_eq!(program.statements.len(), 1);
    }

    #[test]
    fn test_parse_borrow_binding_expression() {
        let input = "let x: &i32 = &y\nlet y: ~i32 = ~z";
        let tokens = tokenize(input).unwrap();
        let (_, program) = parse_program(&tokens).unwrap();
        assert_eq!(program.statements.len(), 2);
    }

    #[test]
    fn test_parse_ref_as_identifier() {
        let input = "let ref = 1";
        let tokens = tokenize(input).unwrap();
        let (_, program) = parse_program(&tokens).unwrap();
        match &program.statements[0].kind {
            StatementKind::Let { pattern, .. } => assert_eq!(pattern.as_name(), Some("ref")),
            _ => panic!("Expected Let statement"),
        }
    }
