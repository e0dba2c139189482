use mictylish::command::CommandSpec;
use mictylish::resolver::Resolver;
use mictylish::span::span;

#[test]
fn name_collision_is_rejected() {
    let mut resolver = Resolver::new();
    resolver.define("x", span(0, 1)).expect("first define");
    let err = resolver
        .define("x", span(10, 1))
        .expect_err("must reject shadowing");
    assert_eq!(err.name, "x");
}

#[test]
fn collision_reports_both_spans() {
    let mut resolver = Resolver::new();
    resolver.define("value", span(4, 5)).expect("first define");
    let err = resolver
        .define("value", span(20, 5))
        .expect_err("must reject redefinition");
    assert_eq!(err.first, span(4, 5));
    assert_eq!(err.second, span(20, 5));
}

#[test]
fn first_span_survives_unrelated_defines() {
    let mut resolver = Resolver::new();
    resolver.define("a", span(0, 1)).expect("define a");
    resolver.define("b", span(2, 1)).expect("define b");
    resolver.define("c", span(4, 1)).expect("define c");
    let err = resolver
        .define("a", span(6, 1))
        .expect_err("must reject redefinition");
    assert_eq!(err.name, "a");
    assert_eq!(err.first, span(0, 1));
    assert_eq!(err.second, span(6, 1));
}

#[test]
fn shadowing_in_nested_scope_is_rejected() {
    let mut resolver = Resolver::new();
    resolver.define("x", span(0, 1)).expect("outer define");
    resolver.push_scope();
    let err = resolver
        .define("x", span(8, 1))
        .expect_err("shadowing must fail");
    assert_eq!(err.first, span(0, 1));
    assert_eq!(err.second, span(8, 1));
    resolver.pop_scope();
}

#[test]
fn pop_scope_frees_nested_definitions() {
    let mut resolver = Resolver::new();
    resolver.push_scope();
    resolver.define("tmp", span(0, 3)).expect("nested define");
    assert!(resolver.is_defined("tmp"));
    resolver.pop_scope();
    assert!(!resolver.is_defined("tmp"));
    resolver.define("tmp", span(10, 3)).expect("redefine after pop");
}

#[test]
fn pop_scope_never_drops_the_global_scope() {
    let mut resolver = Resolver::new();
    resolver.define("kept", span(0, 4)).expect("define");
    resolver.pop_scope();
    resolver.pop_scope();
    assert!(resolver.is_defined("kept"));
}

#[test]
fn is_defined_sees_outer_scopes() {
    let mut resolver = Resolver::new();
    resolver.define("outer", span(0, 5)).expect("define");
    resolver.push_scope();
    assert!(resolver.is_defined("outer"));
    assert!(!resolver.is_defined("inner"));
}

#[test]
fn command_spec_keeps_args_verbatim() {
    let spec = CommandSpec::new("echo", vec!["a b".to_string()]);
    assert_eq!(spec.program(), "echo");
    assert_eq!(spec.args().len(), 1);
    assert_eq!(spec.args()[0], "a b");
    let spec = spec.with_arg("c d");
    assert_eq!(spec.args().len(), 2);
    assert_eq!(spec.args()[1], "c d");
}
