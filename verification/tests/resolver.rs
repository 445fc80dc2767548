use desert::ast::Expression;
use desert::resolver::Resolver;

#[test]
fn type_resolution_respects_value_shadowing() {
    let mut resolver = Resolver::new();
    resolver.declare_type("Path");
    assert!(resolver.is_static_receiver(&Expression::Ident("Path".to_string())));

    resolver.declare_value("Path");
    assert!(!resolver.is_static_receiver(&Expression::Ident("Path".to_string())));
}

#[test]
fn value_shadowing_is_scoped() {
    let mut resolver = Resolver::new();
    resolver.declare_type("Path");
    resolver.enter_scope();
    resolver.declare_value("Path");
    assert!(!resolver.is_static_receiver(&Expression::Ident("Path".to_string())));

    resolver.leave_scope();
    assert!(resolver.is_static_receiver(&Expression::Ident("Path".to_string())));
}

#[test]
fn uppercase_name_is_not_treated_as_type_without_declaration() {
    let resolver = Resolver::new();
    assert!(!resolver.is_static_receiver(&Expression::Ident("Path".to_string())));
}

#[test]
fn builtin_types_are_static_receivers() {
    let resolver = Resolver::new();
    assert!(resolver.is_static_receiver(&Expression::Ident("Box".to_string())));
    let member = Expression::MemberAccess(Box::new(Expression::Ident("List".to_string())), "new".to_string());
    assert!(resolver.is_static_receiver(&member));
    assert!(!resolver.is_static_receiver(&Expression::Ident("x".to_string())));
}

#[test]
fn outermost_scope_is_never_left() {
    let mut resolver = Resolver::new();
    resolver.declare_type("T");
    resolver.declare_value("T");
    resolver.leave_scope();
    assert!(!resolver.is_static_receiver(&Expression::Ident("T".to_string())));
}
