//! The text of the expression-tree module that the AST generator writes:
//! an `Expr` enum with one variant per node type.
use vstd::prelude::*;
use crate::text::{append_str, concat, owned};

verus! {

/// A node type: its name, and its fields as (type, name) pairs.
pub struct AstType {
    pub name: String,
    pub fields: Vec<(String, String)>,
}

/// `        <name>: <type>,`
pub open spec fn field_line(field_type: Seq<char>, field_name: Seq<char>) -> Seq<char> {
    "        "@ + field_name + ": "@ + field_type + ","@
}

/// The lines of the fields of a node type, in order.
pub open spec fn field_lines(fields: Seq<(String, String)>) -> Seq<Seq<char>> {
    fields.map_values(|f: (String, String)| field_line(f.0@, f.1@))
}

/// The lines of one variant: its name and braces around its fields, then an
/// empty line.
pub open spec fn type_lines(t: AstType) -> Seq<Seq<char>> {
    seq!["    "@ + t.name@ + " {"@] + field_lines(t.fields@) + seq!["    },"@, Seq::<char>::empty()]
}

/// The lines of all variants, in order.
pub open spec fn types_lines(types: Seq<AstType>) -> Seq<Seq<char>>
    decreases types.len(),
{
    if types.len() == 0 {
        Seq::empty()
    } else {
        types_lines(types.drop_last()) + type_lines(types.last())
    }
}

/// The lines before the variants.
pub open spec fn module_header() -> Seq<Seq<char>> {
    seq![
        "use crate::token::{Literal, Token};"@,
        Seq::<char>::empty(),
        "#[derive(Debug, Clone, PartialEq)]"@,
        "pub enum Expr {"@,
    ]
}

/// The lines after the variants: the end of the enum and the tests module.
pub open spec fn module_trailer() -> Seq<Seq<char>> {
    seq!["}"@, Seq::<char>::empty(), "#[cfg(test)]"@, "mod tests;"@]
}

/// The whole module, line by line.
pub open spec fn module_lines(types: Seq<AstType>) -> Seq<Seq<char>> {
    module_header() + types_lines(types) + module_trailer()
}

/// The views of a list of lines.
pub open spec fn lines_of(lines: Seq<String>) -> Seq<Seq<char>> {
    lines.map_values(|s: String| s@)
}

fn field(field_type: &str, field_name: &str) -> (f: (String, String))
    ensures
        f.0@ == field_type@,
        f.1@ == field_name@,
{
    (owned(field_type), owned(field_name))
}

/// The node types of expressions: `Binary`, `Grouping`, `Literal` and `Unary`.
pub fn expr_types() -> (types: Vec<AstType>)
    ensures
        types@.len() == 4,
        types@[0].name@ == "Binary"@,
        types@[0].fields@.len() == 3,
        types@[0].fields@[0].0@ == "Box<Expr>"@ && types@[0].fields@[0].1@ == "left"@,
        types@[0].fields@[1].0@ == "Token"@ && types@[0].fields@[1].1@ == "operator"@,
        types@[0].fields@[2].0@ == "Box<Expr>"@ && types@[0].fields@[2].1@ == "right"@,
        types@[1].name@ == "Grouping"@,
        types@[1].fields@.len() == 1,
        types@[1].fields@[0].0@ == "Box<Expr>"@ && types@[1].fields@[0].1@ == "expression"@,
        types@[2].name@ == "Literal"@,
        types@[2].fields@.len() == 1,
        types@[2].fields@[0].0@ == "Literal"@ && types@[2].fields@[0].1@ == "value"@,
        types@[3].name@ == "Unary"@,
        types@[3].fields@.len() == 2,
        types@[3].fields@[0].0@ == "Token"@ && types@[3].fields@[0].1@ == "operator"@,
        types@[3].fields@[1].0@ == "Box<Expr>"@ && types@[3].fields@[1].1@ == "right"@,
{
    let mut types = Vec::new();
    types.push(AstType {
        name: owned("Binary"),
        fields: vec![field("Box<Expr>", "left"), field("Token", "operator"), field("Box<Expr>", "right")],
    });
    types.push(AstType { name: owned("Grouping"), fields: vec![field("Box<Expr>", "expression")] });
    types.push(AstType { name: owned("Literal"), fields: vec![field("Literal", "value")] });
    types.push(AstType { name: owned("Unary"), fields: vec![field("Token", "operator"), field("Box<Expr>", "right")] });
    types
}

/// Appends the lines of one variant.
pub fn define_type(lines: &mut Vec<String>, ast_type: &AstType)
    ensures
        lines_of(final(lines)@) == lines_of(old(lines)@) + type_lines(*ast_type),
{
    let mut open = owned("    ");
    append_str(&mut open, ast_type.name.as_str());
    append_str(&mut open, " {");
    lines.push(open);
    let mut i: usize = 0;
    while i < ast_type.fields.len()
        invariant
            i <= ast_type.fields@.len(),
            lines_of(lines@) == lines_of(old(lines)@) + seq!["    "@ + ast_type.name@ + " {"@] + field_lines(
                ast_type.fields@.take(i as int),
            ),
        decreases ast_type.fields@.len() - i,
    {
        let mut line = owned("        ");
        append_str(&mut line, ast_type.fields[i].1.as_str());
        append_str(&mut line, ": ");
        append_str(&mut line, ast_type.fields[i].0.as_str());
        append_str(&mut line, ",");
        let ghost before = lines@;
        lines.push(line);
        proof {
            assert(ast_type.fields@.take(i + 1) == ast_type.fields@.take(i as int).push(ast_type.fields@[i as int]));
            assert(lines_of(lines@) == lines_of(before).push(line@));
            assert(field_lines(ast_type.fields@.take(i + 1)) == field_lines(ast_type.fields@.take(i as int)).push(
                field_line(ast_type.fields@[i as int].0@, ast_type.fields@[i as int].1@),
            ));
        }
        i = i + 1;
    }
    let ghost middle = lines@;
    lines.push(owned("    },"));
    lines.push(String::new());
    proof {
        assert(ast_type.fields@.take(ast_type.fields@.len() as int) == ast_type.fields@);
        assert(lines_of(lines@) =~= lines_of(middle) + seq!["    },"@, Seq::<char>::empty()]);
        assert(lines_of(lines@) =~= lines_of(old(lines)@) + type_lines(*ast_type));
    }
}

/// The lines of the expression-tree module for `types`.
pub fn define_expr(types: &Vec<AstType>) -> (lines: Vec<String>)
    ensures
        lines_of(lines@) == module_lines(types@),
{
    let mut lines: Vec<String> = Vec::new();
    lines.push(owned("use crate::token::{Literal, Token};"));
    lines.push(String::new());
    lines.push(owned("#[derive(Debug, Clone, PartialEq)]"));
    lines.push(owned("pub enum Expr {"));
    assert(lines_of(lines@) =~= module_header());
    let mut i: usize = 0;
    while i < types.len()
        invariant
            i <= types@.len(),
            lines_of(lines@) == module_header() + types_lines(types@.take(i as int)),
        decreases types@.len() - i,
    {
        define_type(&mut lines, &types[i]);
        proof {
            assert(types@.take(i + 1).drop_last() == types@.take(i as int));
        }
        i = i + 1;
    }
    let ghost middle = lines@;
    lines.push(owned("}"));
    lines.push(String::new());
    lines.push(owned("#[cfg(test)]"));
    lines.push(owned("mod tests;"));
    proof {
        assert(types@.take(types@.len() as int) == types@);
        assert(lines_of(lines@) =~= lines_of(middle) + module_trailer());
    }
    lines
}

} // verus!
