use tan_fmt::compact::{format_compact, Expr};

fn units(n: usize) -> Expr {
    Expr::List((0..n).map(|_| Expr::One).collect())
}

#[test]
fn unit_renders_as_empty_parens() {
    assert_eq!(format_compact(&Expr::One), "()");
}

#[test]
fn booleans_render_lowercase() {
    assert_eq!(format_compact(&Expr::Bool(true)), "true");
    assert_eq!(format_compact(&Expr::Bool(false)), "false");
}

#[test]
fn symbol_renders_verbatim() {
    assert_eq!(format_compact(&Expr::Symbol("x".to_string())), "x");
}

#[test]
fn string_renders_without_quotes() {
    assert_eq!(format_compact(&Expr::String("a \"b\"".to_string())), "a \"b\"");
}

#[test]
fn numbers_render_as_numerals() {
    assert_eq!(format_compact(&Expr::Int(-17)), "-17");
    assert_eq!(format_compact(&Expr::Int(305)), "305");
    assert_eq!(format_compact(&Expr::Float("0.1".to_string())), "0.1");
}

#[test]
fn function_renders_as_placeholder() {
    assert_eq!(format_compact(&Expr::Func), "#<func>");
}

#[test]
fn empty_list_renders_as_empty_parens() {
    assert_eq!(format_compact(&units(0)), "()");
}

#[test]
fn list_of_units_has_separating_spaces() {
    for n in 1..6 {
        let out = format_compact(&units(n));
        assert_eq!(out.matches(' ').count(), n - 1);
        assert_eq!(out.matches("()").count(), n);
        assert_eq!(out.len(), 3 * n + 1);
    }
    assert_eq!(format_compact(&units(3)), "(() () ())");
}

#[test]
fn nested_lists_render_recursively() {
    let e = Expr::List(vec![
        Expr::List(vec![Expr::Symbol("f".to_string()), Expr::Int(1)]),
        Expr::List(vec![]),
        Expr::Func,
        Expr::Bool(false),
    ]);
    assert_eq!(format_compact(&e), "((f 1) () #<func> false)");
}

#[test]
fn deeply_nested_list_renders() {
    let mut e = Expr::One;
    for _ in 0..50 {
        e = Expr::List(vec![e]);
    }
    let out = format_compact(&e);
    assert_eq!(out, format!("{}(){}", "(".repeat(50), ")".repeat(50)));
}
