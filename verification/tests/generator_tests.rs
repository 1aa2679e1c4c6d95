use lib::generate_ast::{define_expr, define_type, expr_types, AstType};

#[test]
fn generates_the_expression_module() {
    let lines = define_expr(&expr_types());
    let expected = vec![
        "use crate::token::{Literal, Token};",
        "",
        "#[derive(Debug, Clone, PartialEq)]",
        "pub enum Expr {",
        "    Binary {",
        "        left: Box<Expr>,",
        "        operator: Token,",
        "        right: Box<Expr>,",
        "    },",
        "",
        "    Grouping {",
        "        expression: Box<Expr>,",
        "    },",
        "",
        "    Literal {",
        "        value: Literal,",
        "    },",
        "",
        "    Unary {",
        "        operator: Token,",
        "        right: Box<Expr>,",
        "    },",
        "",
        "}",
        "",
        "#[cfg(test)]",
        "mod tests;",
    ];
    assert_eq!(lines, expected);
}

#[test]
fn defines_a_type_without_fields() {
    let mut lines = vec!["before".to_string()];
    define_type(&mut lines, &AstType { name: "Empty".to_string(), fields: Vec::new() });
    assert_eq!(lines, vec!["before", "    Empty {", "    },", ""]);
}

#[test]
fn defines_no_variants_for_no_types() {
    let lines = define_expr(&Vec::new());
    assert_eq!(lines.len(), 8);
    assert_eq!(lines[3], "pub enum Expr {");
    assert_eq!(lines[4], "}");
}
